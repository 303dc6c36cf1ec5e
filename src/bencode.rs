//! The bencode codec: integers, byte strings, lists and dictionaries whose
//! keys keep the order in which they were read.

use vstd::prelude::*;
use vstd::slice::slice_to_vec;

verus! {

/// A bencode value as a mathematical object.
pub enum BValue {
    Int(int),
    Bytes(Seq<u8>),
    List(Seq<BValue>),
    Dict(Seq<(Seq<u8>, BValue)>),
}

/// A decoded bencode value. Byte strings are raw bytes; dictionary entries
/// stay in the order in which they were read or built.
#[derive(Debug, PartialEq, Eq)]
pub enum Value {
    Integer(i64),
    ByteString(Vec<u8>),
    List(Vec<Value>),
    Dictionary(Vec<(Vec<u8>, Value)>),
}

/// Why some bytes are not bencode.
#[derive(Debug, Clone, Copy, PartialEq, Eq, Structural)]
pub enum BencodeError {
    /// The input ends where more was expected.
    UnexpectedEnd,
    /// An integer with an empty body, `-0`, a leading zero, a stray byte or
    /// a value outside `i64`.
    MalformedInteger,
    /// A byte string whose length is larger than what remains of the input.
    LengthOverrun,
    /// A dictionary key that is not a byte string.
    NonStringKey,
    /// Leading digits that are not followed by a colon.
    MissingColon,
    /// A value that starts with a byte that starts no value.
    UnexpectedByte,
}

/// The mathematical value that a decoded value stands for.
pub open spec fn value_model(v: Value) -> BValue
    decreases v,
{
    match v {
        Value::Integer(i) => BValue::Int(i as int),
        Value::ByteString(b) => BValue::Bytes(b@),
        Value::List(items) => BValue::List(items_model(items@)),
        Value::Dictionary(entries) => BValue::Dict(entries_model(entries@)),
    }
}

/// The models of list elements, in order.
pub open spec fn items_model(s: Seq<Value>) -> Seq<BValue>
    decreases s,
{
    if s.len() == 0 {
        Seq::empty()
    } else {
        seq![value_model(s[0])] + items_model(s.subrange(1, s.len() as int))
    }
}

/// The models of dictionary entries, in order.
pub open spec fn entries_model(s: Seq<(Vec<u8>, Value)>) -> Seq<(Seq<u8>, BValue)>
    decreases s,
{
    if s.len() == 0 {
        Seq::empty()
    } else {
        seq![(s[0].0@, value_model(s[0].1))] + entries_model(s.subrange(1, s.len() as int))
    }
}

impl View for Value {
    type V = BValue;

    open spec fn view(&self) -> BValue {
        value_model(*self)
    }
}

/// Whether `b` is an ASCII decimal digit.
pub open spec fn is_digit(b: u8) -> bool {
    48 <= b <= 57
}

/// The decimal text of `n`, without leading zeros.
pub open spec fn nat_text(n: nat) -> Seq<u8>
    decreases n,
{
    if n < 10 {
        seq![(n + 48) as u8]
    } else {
        nat_text(n / 10).push((n % 10 + 48) as u8)
    }
}

/// The decimal text of `i`, with a minus sign when it is negative.
pub open spec fn int_text(i: int) -> Seq<u8> {
    if i < 0 {
        seq![45u8] + nat_text((-i) as nat)
    } else {
        nat_text(i as nat)
    }
}

/// The number that a run of decimal digits spells.
pub open spec fn digits_value(d: Seq<u8>) -> nat
    decreases d.len(),
{
    if d.len() == 0 {
        0
    } else {
        digits_value(d.drop_last()) * 10 + (d.last() - 48) as nat
    }
}

/// The encoding of a byte string: its length, a colon, then the bytes.
pub open spec fn bytes_encoding(b: Seq<u8>) -> Seq<u8> {
    nat_text(b.len()) + seq![58u8] + b
}

/// The bencode encoding of a value: dictionaries in their stored order.
pub open spec fn encoding(v: BValue) -> Seq<u8>
    decreases v,
{
    match v {
        BValue::Int(i) => seq![105u8] + int_text(i) + seq![101u8],
        BValue::Bytes(b) => bytes_encoding(b),
        BValue::List(items) => seq![108u8] + items_encoding(items) + seq![101u8],
        BValue::Dict(entries) => seq![100u8] + entries_encoding(entries) + seq![101u8],
    }
}

/// The list elements, encoded one after the other.
pub open spec fn items_encoding(items: Seq<BValue>) -> Seq<u8>
    decreases items,
{
    if items.len() == 0 {
        Seq::empty()
    } else {
        encoding(items[0]) + items_encoding(items.subrange(1, items.len() as int))
    }
}

/// The dictionary entries, each key as a byte string followed by its value.
pub open spec fn entries_encoding(entries: Seq<(Seq<u8>, BValue)>) -> Seq<u8>
    decreases entries,
{
    if entries.len() == 0 {
        Seq::empty()
    } else {
        bytes_encoding(entries[0].0) + encoding(entries[0].1) + entries_encoding(
            entries.subrange(1, entries.len() as int),
        )
    }
}

/// Where the run of digits that starts at `i` ends.
pub open spec fn digits_end(s: Seq<u8>, i: int) -> int
    decreases s.len() - i,
{
    if 0 <= i < s.len() && is_digit(s[i]) {
        digits_end(s, i + 1)
    } else {
        i
    }
}

/// Reads `i<digits>e` from the front of `s`, which starts with `i`.
pub open spec fn parse_int(s: Seq<u8>) -> Result<(BValue, nat), BencodeError> {
    let neg = s.len() > 1 && s[1] == 45u8;
    let start: int = if neg { 2 } else { 1 };
    let end = digits_end(s, start);
    if end >= s.len() {
        Err(BencodeError::UnexpectedEnd)
    } else if s[end] != 101u8 {
        Err(BencodeError::MalformedInteger)
    } else {
        let d = s.subrange(start, end);
        let v: int = if neg { -digits_value(d) } else { digits_value(d) as int };
        if d.len() == 0 || (d[0] == 48u8 && (d.len() > 1 || neg)) || v < i64::MIN || v > i64::MAX {
            Err(BencodeError::MalformedInteger)
        } else {
            Ok((BValue::Int(v), (end + 1) as nat))
        }
    }
}

/// Reads `<length>:<bytes>` from the front of `s`, which starts with a digit.
pub open spec fn parse_bytes(s: Seq<u8>) -> Result<(Seq<u8>, nat), BencodeError> {
    let end = digits_end(s, 0);
    if end >= s.len() || s[end] != 58u8 {
        Err(BencodeError::MissingColon)
    } else {
        let n = digits_value(s.subrange(0, end));
        if n > s.len() - end - 1 {
            Err(BencodeError::LengthOverrun)
        } else {
            Ok((s.subrange(end + 1, end + 1 + n), (end + 1 + n) as nat))
        }
    }
}

/// Reads one value from the front of `s`: the value and how many bytes it takes.
pub open spec fn parse_value(s: Seq<u8>) -> Result<(BValue, nat), BencodeError>
    decreases s.len(), 0nat,
{
    if s.len() == 0 {
        Err(BencodeError::UnexpectedEnd)
    } else if s[0] == 105u8 {
        parse_int(s)
    } else if is_digit(s[0]) {
        match parse_bytes(s) {
            Ok((b, n)) => Ok((BValue::Bytes(b), n)),
            Err(e) => Err(e),
        }
    } else if s[0] == 108u8 {
        match parse_items(s.subrange(1, s.len() as int)) {
            Ok((items, n)) => Ok((BValue::List(items), n + 1)),
            Err(e) => Err(e),
        }
    } else if s[0] == 100u8 {
        match parse_entries(s.subrange(1, s.len() as int)) {
            Ok((entries, n)) => Ok((BValue::Dict(entries), n + 1)),
            Err(e) => Err(e),
        }
    } else {
        Err(BencodeError::UnexpectedByte)
    }
}

/// Reads list elements up to and including the closing `e`.
pub open spec fn parse_items(s: Seq<u8>) -> Result<(Seq<BValue>, nat), BencodeError>
    decreases s.len(), 1nat,
{
    if s.len() == 0 {
        Err(BencodeError::UnexpectedEnd)
    } else if s[0] == 101u8 {
        Ok((Seq::empty(), 1))
    } else {
        match parse_value(s) {
            Err(e) => Err(e),
            Ok((v, n)) => if 0 < n <= s.len() {
                match parse_items(s.subrange(n as int, s.len() as int)) {
                    Ok((rest, m)) => Ok((seq![v] + rest, n + m)),
                    Err(e) => Err(e),
                }
            } else {
                Err(BencodeError::UnexpectedEnd)
            },
        }
    }
}

/// Reads dictionary entries up to and including the closing `e`.
pub open spec fn parse_entries(s: Seq<u8>) -> Result<(Seq<(Seq<u8>, BValue)>, nat), BencodeError>
    decreases s.len(), 1nat,
{
    if s.len() == 0 {
        Err(BencodeError::UnexpectedEnd)
    } else if s[0] == 101u8 {
        Ok((Seq::empty(), 1))
    } else if !is_digit(s[0]) {
        Err(BencodeError::NonStringKey)
    } else {
        match parse_bytes(s) {
            Err(e) => Err(e),
            Ok((k, kn)) => if 0 < kn <= s.len() {
                let t = s.subrange(kn as int, s.len() as int);
                match parse_value(t) {
                    Err(e) => Err(e),
                    Ok((v, vn)) => if 0 < vn <= t.len() {
                        match parse_entries(t.subrange(vn as int, t.len() as int)) {
                            Ok((rest, m)) => Ok((seq![(k, v)] + rest, kn + vn + m)),
                            Err(e) => Err(e),
                        }
                    } else {
                        Err(BencodeError::UnexpectedEnd)
                    },
                }
            } else {
                Err(BencodeError::UnexpectedEnd)
            },
        }
    }
}

/// The model of a list holds the models of its elements, one for one.
pub proof fn lemma_items_model(s: Seq<Value>)
    ensures
        items_model(s).len() == s.len(),
        forall|i: int| 0 <= i < s.len() ==> #[trigger] items_model(s)[i] == value_model(s[i]),
    decreases s.len(),
{
    if s.len() > 0 {
        let t = s.subrange(1, s.len() as int);
        lemma_items_model(t);
        assert forall|i: int| 0 <= i < s.len() implies #[trigger] items_model(s)[i] == value_model(s[i]) by {
            if i > 0 {
                assert(t[i - 1] == s[i]);
            }
        }
    }
}

/// The model of a dictionary holds the models of its entries, one for one.
pub proof fn lemma_entries_model(s: Seq<(Vec<u8>, Value)>)
    ensures
        entries_model(s).len() == s.len(),
        forall|i: int|
            0 <= i < s.len() ==> #[trigger] entries_model(s)[i] == (s[i].0@, value_model(s[i].1)),
    decreases s.len(),
{
    if s.len() > 0 {
        let t = s.subrange(1, s.len() as int);
        lemma_entries_model(t);
        assert forall|i: int| 0 <= i < s.len() implies #[trigger] entries_model(s)[i] == (
        s[i].0@, value_model(s[i].1)) by {
            if i > 0 {
                assert(t[i - 1] == s[i]);
            }
        }
    }
}

/// Appends the decimal text of `n`.
fn push_nat_text(n: u64, out: &mut Vec<u8>)
    ensures
        final(out)@ == old(out)@ + nat_text(n as nat),
    decreases n,
{
    if n >= 10 {
        push_nat_text(n / 10, out);
    }
    out.push((n % 10) as u8 + 48);
    assert(out@ =~= old(out)@ + nat_text(n as nat));
}

/// Appends the decimal text of `i`.
fn push_int_text(i: i64, out: &mut Vec<u8>)
    ensures
        final(out)@ == old(out)@ + int_text(i as int),
{
    if i < 0 {
        out.push(45);
        let m: u64 = (0i128 - i as i128) as u64;
        push_nat_text(m, out);
        assert(out@ =~= old(out)@ + int_text(i as int));
    } else {
        push_nat_text(i as u64, out);
    }
}

/// Appends the encoding of a byte string.
fn push_bytes_encoding(b: &[u8], out: &mut Vec<u8>)
    ensures
        final(out)@ == old(out)@ + bytes_encoding(b@),
{
    push_nat_text(b.len() as u64, out);
    out.push(58);
    let mut copy = slice_to_vec(b);
    out.append(&mut copy);
    assert(out@ =~= old(out)@ + bytes_encoding(b@));
}

/// Appends the encoding of `v`.
#[verifier::loop_isolation(false)]
fn encode_into(v: &Value, out: &mut Vec<u8>)
    ensures
        final(out)@ == old(out)@ + encoding(v@),
    decreases v,
{
    match v {
        Value::Integer(i) => {
            out.push(105);
            push_int_text(*i, out);
            out.push(101);
            assert(out@ =~= old(out)@ + encoding(v@));
        },
        Value::ByteString(b) => {
            push_bytes_encoding(b.as_slice(), out);
        },
        Value::List(items) => {
            let ghost m = items_model(items@);
            proof {
                lemma_items_model(items@);
            }
            out.push(108);
            let ghost start = out@;
            assert(m.subrange(0, m.len() as int) =~= m);
            let mut k: usize = 0;
            while k < items.len()
                invariant
                    k <= items.len(),
                    m.len() == items@.len(),
                    forall|i: int| 0 <= i < items@.len() ==> #[trigger] m[i] == value_model(items@[i]),
                    start + items_encoding(m) == out@ + items_encoding(m.subrange(k as int, m.len() as int)),
                decreases items.len() - k,
            {
                let ghost before = out@;
                let ghost t = m.subrange(k as int, m.len() as int);
                assert(t.subrange(1, t.len() as int) =~= m.subrange(k + 1, m.len() as int));
                proof {
                    vstd::std_specs::vec::axiom_vec_index_decreases(*items, k as int);
                    assert(decreases_to!(*v => (*v)->List_0));
                }
                encode_into(&items[k], out);
                assert(before + (encoding(t[0]) + items_encoding(t.subrange(1, t.len() as int)))
                    =~= out@ + items_encoding(m.subrange(k + 1, m.len() as int)));
                k += 1;
            }
            assert(m.subrange(k as int, m.len() as int) =~= Seq::<BValue>::empty());
            out.push(101);
            assert(out@ =~= old(out)@ + encoding(v@));
        },
        Value::Dictionary(entries) => {
            let ghost m = entries_model(entries@);
            proof {
                lemma_entries_model(entries@);
            }
            out.push(100);
            let ghost start = out@;
            assert(m.subrange(0, m.len() as int) =~= m);
            let mut k: usize = 0;
            while k < entries.len()
                invariant
                    k <= entries.len(),
                    m.len() == entries@.len(),
                    forall|i: int|
                        0 <= i < entries@.len() ==> #[trigger] m[i] == (entries@[i].0@, value_model(
                            entries@[i].1,
                        )),
                    start + entries_encoding(m) == out@ + entries_encoding(
                        m.subrange(k as int, m.len() as int),
                    ),
                decreases entries.len() - k,
            {
                let ghost before = out@;
                let ghost t = m.subrange(k as int, m.len() as int);
                assert(t.subrange(1, t.len() as int) =~= m.subrange(k + 1, m.len() as int));
                let entry = &entries[k];
                push_bytes_encoding(entry.0.as_slice(), out);
                proof {
                    vstd::std_specs::vec::axiom_vec_index_decreases(*entries, k as int);
                    assert(decreases_to!(*v => (*v)->Dictionary_0));
                    assert(decreases_to!(entries[k as int] => entries[k as int].1));
                }
                encode_into(&entry.1, out);
                assert(before + (bytes_encoding(t[0].0) + encoding(t[0].1) + entries_encoding(
                    t.subrange(1, t.len() as int),
                )) =~= out@ + entries_encoding(m.subrange(k + 1, m.len() as int)));
                k += 1;
            }
            assert(m.subrange(k as int, m.len() as int) =~= Seq::<(Seq<u8>, BValue)>::empty());
            out.push(101);
            assert(out@ =~= old(out)@ + encoding(v@));
        },
    }
}

/// The bencode encoding of `v`; dictionaries keep their order.
pub fn encode(v: &Value) -> (r: Vec<u8>)
    ensures
        r@ == encoding(v@),
{
    let mut out: Vec<u8> = Vec::new();
    encode_into(v, &mut out);
    assert(out@ =~= encoding(v@));
    out
}

/// What a decoder result says, in terms of models.
pub open spec fn decoded(r: Result<(Value, usize), BencodeError>) -> Result<(BValue, nat), BencodeError> {
    match r {
        Ok((v, n)) => Ok((v@, n as nat)),
        Err(e) => Err(e),
    }
}

/// Appending a value appends its model.
pub proof fn lemma_items_model_push(s: Seq<Value>, v: Value)
    ensures
        items_model(s.push(v)) == items_model(s) + seq![value_model(v)],
{
    lemma_items_model(s);
    lemma_items_model(s.push(v));
    assert(items_model(s.push(v)) =~= items_model(s) + seq![value_model(v)]);
}

/// Appending an entry appends its model.
pub proof fn lemma_entries_model_push(s: Seq<(Vec<u8>, Value)>, e: (Vec<u8>, Value))
    ensures
        entries_model(s.push(e)) == entries_model(s) + seq![(e.0@, value_model(e.1))],
{
    lemma_entries_model(s);
    lemma_entries_model(s.push(e));
    assert(entries_model(s.push(e)) =~= entries_model(s) + seq![(e.0@, value_model(e.1))]);
}

/// Reads an integer from the front of `s`, which starts with `i`.
fn decode_int(s: &[u8]) -> (r: Result<(Value, usize), BencodeError>)
    requires
        s@.len() > 0,
        s@[0] == 105u8,
    ensures
        decoded(r) == parse_int(s@),
        r matches Ok((_, n)) ==> 0 < n <= s@.len(),
{
    let len = s.len();
    let neg = len > 1 && s[1] == 45;
    let start: usize = if neg { 2 } else { 1 };
    let mut i: usize = start;
    let mut acc: u128 = 0;
    let mut big = false;
    assert(s@.subrange(start as int, start as int) =~= Seq::<u8>::empty());
    while i < len && 48 <= s[i] && s[i] <= 57
        invariant
            start <= i <= len,
            len == s@.len(),
            digits_end(s@, start as int) == digits_end(s@, i as int),
            !big ==> acc == digits_value(s@.subrange(start as int, i as int)) && acc
                <= 0x8000_0000_0000_0000,
            big ==> digits_value(s@.subrange(start as int, i as int)) > 0x8000_0000_0000_0000,
        decreases len - i,
    {
        let d = (s[i] - 48) as u128;
        assert(s@.subrange(start as int, i + 1).drop_last() =~= s@.subrange(start as int, i as int));
        if !big {
            let next = acc * 10 + d;
            if next > 0x8000_0000_0000_0000 {
                big = true;
            } else {
                acc = next;
            }
        }
        i += 1;
    }
    if i >= len {
        return Err(BencodeError::UnexpectedEnd);
    }
    if s[i] != 101 {
        return Err(BencodeError::MalformedInteger);
    }
    let ndigits = i - start;
    if ndigits == 0 || (s[start] == 48 && (ndigits > 1 || neg)) || big {
        return Err(BencodeError::MalformedInteger);
    }
    let v: i128 = if neg { 0 - (acc as i128) } else { acc as i128 };
    if v < i64::MIN as i128 || v > i64::MAX as i128 {
        return Err(BencodeError::MalformedInteger);
    }
    Ok((Value::Integer(v as i64), i + 1))
}

/// Reads `<length>:<bytes>` from the front of `s`, which starts with a digit.
fn decode_bytes(s: &[u8]) -> (r: Result<(Vec<u8>, usize), BencodeError>)
    requires
        s@.len() > 0,
        is_digit(s@[0]),
    ensures
        parse_bytes(s@) == match r {
            Ok((b, n)) => Ok::<(Seq<u8>, nat), BencodeError>((b@, n as nat)),
            Err(e) => Err(e),
        },
        r matches Ok((_, n)) ==> 1 < n <= s@.len(),
{
    let len = s.len();
    let mut i: usize = 0;
    let mut acc: u128 = 0;
    let mut big = false;
    assert(s@.subrange(0, 0) =~= Seq::<u8>::empty());
    while i < len && 48 <= s[i] && s[i] <= 57
        invariant
            i <= len,
            len == s@.len(),
            digits_end(s@, 0) == digits_end(s@, i as int),
            !big ==> acc == digits_value(s@.subrange(0, i as int)) && acc <= len,
            big ==> digits_value(s@.subrange(0, i as int)) > len,
        decreases len - i,
    {
        let d = (s[i] - 48) as u128;
        assert(s@.subrange(0, i + 1).drop_last() =~= s@.subrange(0, i as int));
        if !big {
            let next = acc * 10 + d;
            if next > len as u128 {
                big = true;
            } else {
                acc = next;
            }
        }
        i += 1;
    }
    if i >= len || s[i] != 58 {
        return Err(BencodeError::MissingColon);
    }
    if big || acc > (len - i - 1) as u128 {
        return Err(BencodeError::LengthOverrun);
    }
    let n = acc as usize;
    let bytes = slice_to_vec(&s[i + 1..i + 1 + n]);
    Ok((bytes, i + 1 + n))
}

/// Reads one bencode value from the front of `s`: the value and the number
/// of bytes it takes. Bytes after it are left alone.
pub fn decode(s: &[u8]) -> (r: Result<(Value, usize), BencodeError>)
    ensures
        decoded(r) == parse_value(s@),
        r matches Ok((_, n)) ==> 0 < n <= s@.len(),
    decreases s@.len(), 0nat,
{
    if s.len() == 0 {
        return Err(BencodeError::UnexpectedEnd);
    }
    let c = s[0];
    if c == 105 {
        decode_int(s)
    } else if 48 <= c && c <= 57 {
        match decode_bytes(s) {
            Ok((b, n)) => Ok((Value::ByteString(b), n)),
            Err(e) => Err(e),
        }
    } else if c == 108 {
        let rest = &s[1..s.len()];
        match decode_items(rest) {
            Ok((items, n)) => Ok((Value::List(items), n + 1)),
            Err(e) => Err(e),
        }
    } else if c == 100 {
        let rest = &s[1..s.len()];
        match decode_entries(rest) {
            Ok((entries, n)) => Ok((Value::Dictionary(entries), n + 1)),
            Err(e) => Err(e),
        }
    } else {
        Err(BencodeError::UnexpectedByte)
    }
}

/// Reads list elements up to and including the closing `e`.
fn decode_items(s: &[u8]) -> (r: Result<(Vec<Value>, usize), BencodeError>)
    ensures
        parse_items(s@) == match r {
            Ok((items, n)) => Ok::<(Seq<BValue>, nat), BencodeError>((items_model(items@), n as nat)),
            Err(e) => Err(e),
        },
        r matches Ok((_, n)) ==> 0 < n <= s@.len(),
    decreases s@.len(), 1nat,
{
    let mut items: Vec<Value> = Vec::new();
    let mut pos: usize = 0;
    proof {
        assert(s@.subrange(0, s@.len() as int) =~= s@);
        match parse_items(s@) {
            Ok((rest, m)) => {
                assert(items_model(items@) + rest =~= rest);
            },
            Err(_) => {},
        }
    }
    loop
        invariant
            pos <= s@.len(),
            match parse_items(s@.subrange(pos as int, s@.len() as int)) {
                Ok((rest, m)) => parse_items(s@) == Ok::<(Seq<BValue>, nat), BencodeError>(
                    (items_model(items@) + rest, (pos + m) as nat),
                ),
                Err(e) => parse_items(s@) == Err::<(Seq<BValue>, nat), BencodeError>(e),
            },
        decreases s@.len() - pos,
    {
        let ghost sub = s@.subrange(pos as int, s@.len() as int);
        if pos >= s.len() {
            return Err(BencodeError::UnexpectedEnd);
        }
        if s[pos] == 101 {
            assert(items_model(items@) + Seq::<BValue>::empty() =~= items_model(items@));
            return Ok((items, pos + 1));
        }
        let t = &s[pos..s.len()];
        match decode(t) {
            Err(e) => {
                return Err(e);
            },
            Ok((v, n)) => {
                proof {
                    let next = s@.subrange(pos + n, s@.len() as int);
                    assert(sub.subrange(n as int, sub.len() as int) =~= next);
                    lemma_items_model_push(items@, v);
                    match parse_items(next) {
                        Ok((rest, m)) => {
                            assert(items_model(items@) + (seq![v@] + rest) =~= (items_model(items@)
                                + seq![v@]) + rest);
                        },
                        Err(_) => {},
                    }
                }
                items.push(v);
                pos = pos + n;
            },
        }
    }
}

/// Reads dictionary entries up to and including the closing `e`.
fn decode_entries(s: &[u8]) -> (r: Result<(Vec<(Vec<u8>, Value)>, usize), BencodeError>)
    ensures
        parse_entries(s@) == match r {
            Ok((entries, n)) => Ok::<(Seq<(Seq<u8>, BValue)>, nat), BencodeError>(
                (entries_model(entries@), n as nat),
            ),
            Err(e) => Err(e),
        },
        r matches Ok((_, n)) ==> 0 < n <= s@.len(),
    decreases s@.len(), 1nat,
{
    let mut entries: Vec<(Vec<u8>, Value)> = Vec::new();
    let mut pos: usize = 0;
    proof {
        assert(s@.subrange(0, s@.len() as int) =~= s@);
        match parse_entries(s@) {
            Ok((rest, m)) => {
                assert(entries_model(entries@) + rest =~= rest);
            },
            Err(_) => {},
        }
    }
    loop
        invariant
            pos <= s@.len(),
            match parse_entries(s@.subrange(pos as int, s@.len() as int)) {
                Ok((rest, m)) => parse_entries(s@) == Ok::<
                    (Seq<(Seq<u8>, BValue)>, nat),
                    BencodeError,
                >((entries_model(entries@) + rest, (pos + m) as nat)),
                Err(e) => parse_entries(s@) == Err::<(Seq<(Seq<u8>, BValue)>, nat), BencodeError>(
                    e,
                ),
            },
        decreases s@.len() - pos,
    {
        let ghost sub = s@.subrange(pos as int, s@.len() as int);
        if pos >= s.len() {
            return Err(BencodeError::UnexpectedEnd);
        }
        let c = s[pos];
        if c == 101 {
            assert(entries_model(entries@) + Seq::<(Seq<u8>, BValue)>::empty() =~= entries_model(
                entries@,
            ));
            return Ok((entries, pos + 1));
        }
        if !(48 <= c && c <= 57) {
            return Err(BencodeError::NonStringKey);
        }
        let t = &s[pos..s.len()];
        match decode_bytes(t) {
            Err(e) => {
                return Err(e);
            },
            Ok((key, kn)) => {
                let t2 = &s[pos + kn..s.len()];
                assert(sub.subrange(kn as int, sub.len() as int) =~= t2@);
                match decode(t2) {
                    Err(e) => {
                        return Err(e);
                    },
                    Ok((v, vn)) => {
                        proof {
                            let next = s@.subrange(pos + kn + vn, s@.len() as int);
                            assert(t2@.subrange(vn as int, t2@.len() as int) =~= next);
                            lemma_entries_model_push(entries@, (key, v));
                            match parse_entries(next) {
                                Ok((rest, m)) => {
                                    assert(entries_model(entries@) + (seq![(key@, v@)] + rest)
                                        =~= (entries_model(entries@) + seq![(key@, v@)]) + rest);
                                },
                                Err(_) => {},
                            }
                        }
                        entries.push((key, v));
                        pos = pos + kn + vn;
                    },
                }
            },
        }
    }
}

/// Whether every integer in `v` fits in an `i64`, as in every decoded value.
pub open spec fn well_formed(v: BValue) -> bool
    decreases v,
{
    match v {
        BValue::Int(i) => i64::MIN <= i <= i64::MAX,
        BValue::Bytes(_) => true,
        BValue::List(items) => items_well_formed(items),
        BValue::Dict(entries) => entries_well_formed(entries),
    }
}

/// Whether every list element is well formed.
pub open spec fn items_well_formed(items: Seq<BValue>) -> bool
    decreases items,
{
    items.len() == 0 || (well_formed(items[0]) && items_well_formed(
        items.subrange(1, items.len() as int),
    ))
}

/// Whether every dictionary value is well formed.
pub open spec fn entries_well_formed(entries: Seq<(Seq<u8>, BValue)>) -> bool
    decreases entries,
{
    entries.len() == 0 || (well_formed(entries[0].1) && entries_well_formed(
        entries.subrange(1, entries.len() as int),
    ))
}

/// The model of every value is well formed.
pub proof fn lemma_model_well_formed(v: Value)
    ensures
        well_formed(v@),
    decreases v,
{
    match v {
        Value::List(items) => {
            lemma_items_model_well_formed(items@);
        },
        Value::Dictionary(entries) => {
            lemma_entries_model_well_formed(entries@);
        },
        _ => {},
    }
}

/// The models of a list's elements are well formed.
pub proof fn lemma_items_model_well_formed(s: Seq<Value>)
    ensures
        items_well_formed(items_model(s)),
    decreases s,
{
    if s.len() > 0 {
        let m = items_model(s);
        lemma_model_well_formed(s[0]);
        lemma_items_model_well_formed(s.subrange(1, s.len() as int));
        assert(m.subrange(1, m.len() as int) =~= items_model(s.subrange(1, s.len() as int)));
    }
}

/// The models of a dictionary's values are well formed.
pub proof fn lemma_entries_model_well_formed(s: Seq<(Vec<u8>, Value)>)
    ensures
        entries_well_formed(entries_model(s)),
    decreases s,
{
    if s.len() > 0 {
        let m = entries_model(s);
        assert(decreases_to!(s[0] => s[0].1));
        lemma_model_well_formed(s[0].1);
        lemma_entries_model_well_formed(s.subrange(1, s.len() as int));
        assert(m.subrange(1, m.len() as int) =~= entries_model(s.subrange(1, s.len() as int)));
    }
}

/// Decimal text is a non-empty run of digits that spells its number, with
/// no leading zero.
pub proof fn lemma_nat_text(n: nat)
    ensures
        nat_text(n).len() >= 1,
        forall|k: int| 0 <= k < nat_text(n).len() ==> is_digit(#[trigger] nat_text(n)[k]),
        digits_value(nat_text(n)) == n,
        nat_text(n)[0] == 48u8 <==> n == 0,
        n == 0 ==> nat_text(n).len() == 1,
    decreases n,
{
    if n >= 10 {
        lemma_nat_text(n / 10);
        let t = nat_text(n / 10);
        let u = t.push((n % 10 + 48) as u8);
        assert(u.drop_last() =~= t);
        assert(u.last() == (n % 10 + 48) as u8);
        assert(digits_value(u) == digits_value(t) * 10 + n % 10);
        assert(n == (n / 10) * 10 + n % 10);
        assert(nat_text(n) == u);
    } else {
        assert(nat_text(n).drop_last() =~= Seq::<u8>::empty());
        assert(digits_value(Seq::<u8>::empty()) == 0);
    }
}

/// A run of digits from `i` that stops at `j` ends at `j`.
pub proof fn lemma_digits_end(s: Seq<u8>, i: int, j: int)
    requires
        0 <= i <= j <= s.len(),
        forall|k: int| i <= k < j ==> is_digit(#[trigger] s[k]),
        j == s.len() || !is_digit(s[j]),
    ensures
        digits_end(s, i) == j,
    decreases j - i,
{
    if i < j {
        lemma_digits_end(s, i + 1, j);
    }
}

/// An encoding is never empty, never starts with `e`, and starts with a
/// digit exactly when it encodes a byte string.
pub proof fn lemma_encoding_head(v: BValue)
    ensures
        encoding(v).len() > 0,
        encoding(v)[0] != 101u8,
        is_digit(encoding(v)[0]) <==> v is Bytes,
{
    match v {
        BValue::Bytes(b) => {
            lemma_nat_text(b.len());
        },
        _ => {},
    }
}

/// A byte string reads back from its encoding, whatever follows it.
pub proof fn lemma_parse_bytes_encoding(b: Seq<u8>, rest: Seq<u8>)
    ensures
        parse_bytes(bytes_encoding(b) + rest) == Ok::<(Seq<u8>, nat), BencodeError>(
            (b, bytes_encoding(b).len()),
        ),
{
    let t = nat_text(b.len());
    let s = bytes_encoding(b) + rest;
    lemma_nat_text(b.len());
    lemma_digits_end(s, 0, t.len() as int);
    assert(s.subrange(0, t.len() as int) =~= t);
    assert(s.subrange(t.len() + 1int, t.len() + 1int + b.len()) =~= b);
}

/// A well-formed value reads back from its encoding, whatever follows it.
pub proof fn lemma_parse_encoding(v: BValue, rest: Seq<u8>)
    requires
        well_formed(v),
    ensures
        parse_value(encoding(v) + rest) == Ok::<(BValue, nat), BencodeError>((v, encoding(v).len())),
    decreases v,
{
    let s = encoding(v) + rest;
    match v {
        BValue::Int(i) => {
            let mag: nat = if i < 0 { (-i) as nat } else { i as nat };
            let t = nat_text(mag);
            lemma_nat_text(mag);
            let start: int = if i < 0 { 2 } else { 1 };
            let end = start + t.len();
            assert(s[end] == 101u8);
            assert forall|k: int| start <= k < end implies is_digit(#[trigger] s[k]) by {
                assert(s[k] == t[k - start]);
            }
            lemma_digits_end(s, start, end);
            assert(s.subrange(start, end) =~= t);
        },
        BValue::Bytes(b) => {
            lemma_parse_bytes_encoding(b, rest);
            lemma_nat_text(b.len());
        },
        BValue::List(items) => {
            lemma_parse_items_encoding(items, rest);
            assert(s.subrange(1, s.len() as int) =~= items_encoding(items) + seq![101u8] + rest);
        },
        BValue::Dict(entries) => {
            lemma_parse_entries_encoding(entries, rest);
            assert(s.subrange(1, s.len() as int) =~= entries_encoding(entries) + seq![101u8] + rest);
        },
    }
}

/// Well-formed list elements read back from their encoding and the closing `e`.
pub proof fn lemma_parse_items_encoding(items: Seq<BValue>, rest: Seq<u8>)
    requires
        items_well_formed(items),
    ensures
        parse_items(items_encoding(items) + seq![101u8] + rest) == Ok::<(Seq<BValue>, nat), BencodeError>(
            (items, items_encoding(items).len() + 1),
        ),
    decreases items,
{
    let s = items_encoding(items) + seq![101u8] + rest;
    if items.len() == 0 {
        assert(s[0] == 101u8);
        assert(items =~= Seq::<BValue>::empty());
    } else {
        let tail = items.subrange(1, items.len() as int);
        let e0 = encoding(items[0]);
        let r2 = items_encoding(tail) + seq![101u8] + rest;
        assert(s =~= e0 + r2);
        lemma_encoding_head(items[0]);
        lemma_parse_encoding(items[0], r2);
        assert(s.subrange(e0.len() as int, s.len() as int) =~= r2);
        lemma_parse_items_encoding(tail, rest);
        assert(seq![items[0]] + tail =~= items);
    }
}

/// Well-formed dictionary entries read back from their encoding and the
/// closing `e`, in the same order.
#[verifier::rlimit(50)]
pub proof fn lemma_parse_entries_encoding(entries: Seq<(Seq<u8>, BValue)>, rest: Seq<u8>)
    requires
        entries_well_formed(entries),
    ensures
        parse_entries(entries_encoding(entries) + seq![101u8] + rest) == Ok::<
            (Seq<(Seq<u8>, BValue)>, nat),
            BencodeError,
        >((entries, entries_encoding(entries).len() + 1)),
    decreases entries,
{
    let s = entries_encoding(entries) + seq![101u8] + rest;
    if entries.len() == 0 {
        assert(s[0] == 101u8);
        assert(entries =~= Seq::<(Seq<u8>, BValue)>::empty());
    } else {
        let tail = entries.subrange(1, entries.len() as int);
        let k0 = bytes_encoding(entries[0].0);
        let v0 = encoding(entries[0].1);
        let r2 = entries_encoding(tail) + seq![101u8] + rest;
        assert(s =~= k0 + (v0 + r2));
        lemma_nat_text(entries[0].0.len());
        lemma_parse_bytes_encoding(entries[0].0, v0 + r2);
        let t = s.subrange(k0.len() as int, s.len() as int);
        assert(t =~= v0 + r2);
        assert(decreases_to!(entries[0] => entries[0].1));
        lemma_parse_encoding(entries[0].1, r2);
        assert(t.subrange(v0.len() as int, t.len() as int) =~= r2);
        lemma_parse_entries_encoding(tail, rest);
        assert(seq![(entries[0].0, entries[0].1)] + tail =~= entries);
    }
}

/// Round trip: decoding the encoding of a well-formed value gives the value
/// back and takes exactly the encoded bytes.
pub proof fn lemma_decode_encode(v: BValue)
    requires
        well_formed(v),
    ensures
        parse_value(encoding(v)) == Ok::<(BValue, nat), BencodeError>((v, encoding(v).len())),
{
    lemma_parse_encoding(v, Seq::empty());
    assert(encoding(v) + Seq::<u8>::empty() =~= encoding(v));
}

/// Whether the length prefix at the front of `s` is written without a
/// leading zero.
pub open spec fn canonical_length(s: Seq<u8>) -> bool {
    digits_end(s, 0) == 1 || s[0] != 48u8
}

/// Whether the value at the front of `s` writes every byte-string length
/// without a leading zero (integers are checked by the grammar itself).
pub open spec fn canonical_value(s: Seq<u8>) -> bool
    decreases s.len(), 0nat,
{
    if s.len() == 0 {
        true
    } else if is_digit(s[0]) {
        canonical_length(s)
    } else if s[0] == 108u8 {
        canonical_items(s.subrange(1, s.len() as int))
    } else if s[0] == 100u8 {
        canonical_entries(s.subrange(1, s.len() as int))
    } else {
        true
    }
}

/// Whether the list elements at the front of `s` are canonical.
pub open spec fn canonical_items(s: Seq<u8>) -> bool
    decreases s.len(), 1nat,
{
    if s.len() == 0 || s[0] == 101u8 {
        true
    } else {
        match parse_value(s) {
            Ok((_, n)) => if 0 < n <= s.len() {
                canonical_value(s) && canonical_items(s.subrange(n as int, s.len() as int))
            } else {
                true
            },
            Err(_) => true,
        }
    }
}

/// Whether the dictionary entries at the front of `s` are canonical.
pub open spec fn canonical_entries(s: Seq<u8>) -> bool
    decreases s.len(), 1nat,
{
    if s.len() == 0 || s[0] == 101u8 || !is_digit(s[0]) {
        true
    } else {
        match parse_bytes(s) {
            Ok((_, kn)) => if 0 < kn <= s.len() {
                let t = s.subrange(kn as int, s.len() as int);
                canonical_length(s) && match parse_value(t) {
                    Ok((_, vn)) => if 0 < vn <= t.len() {
                        canonical_value(t) && canonical_entries(t.subrange(vn as int, t.len() as int))
                    } else {
                        true
                    },
                    Err(_) => true,
                }
            } else {
                true
            },
            Err(_) => true,
        }
    }
}

/// The digits before `digits_end` are digits.
pub proof fn lemma_digits_run(s: Seq<u8>, i: int)
    requires
        0 <= i,
    ensures
        i <= digits_end(s, i),
        digits_end(s, i) <= s.len() || digits_end(s, i) == i,
        forall|k: int| i <= k < digits_end(s, i) ==> is_digit(#[trigger] s[k]),
    decreases s.len() - i,
{
    if 0 <= i < s.len() && is_digit(s[i]) {
        lemma_digits_run(s, i + 1);
    }
}

/// Digits without a leading zero are the decimal text of the number they
/// spell.
pub proof fn lemma_digits_text(d: Seq<u8>)
    requires
        d.len() >= 1,
        forall|k: int| 0 <= k < d.len() ==> is_digit(#[trigger] d[k]),
        d.len() == 1 || d[0] != 48u8,
    ensures
        nat_text(digits_value(d)) == d,
        d[0] != 48u8 ==> digits_value(d) > 0,
        d.len() > 1 ==> digits_value(d) >= 10,
    decreases d.len(),
{
    let x = d.last();
    let t = d.drop_last();
    if d.len() == 1 {
        assert(t =~= Seq::<u8>::empty());
        assert(digits_value(t) == 0);
        assert(nat_text(digits_value(d)) =~= d);
    } else {
        assert(t[0] == d[0]);
        assert forall|k: int| 0 <= k < t.len() implies is_digit(#[trigger] t[k]) by {
            assert(t[k] == d[k]);
        }
        lemma_digits_text(t);
        let m = digits_value(d);
        assert(m == digits_value(t) * 10 + (x - 48));
        assert(m / 10 == digits_value(t));
        assert(m % 10 == x - 48);
        assert(nat_text(m) == nat_text(m / 10).push((m % 10 + 48) as u8));
        assert(t.push(x) =~= d);
    }
}

/// A parsed integer re-encodes to the bytes it was read from.
proof fn lemma_reencode_int(s: Seq<u8>)
    requires
        s.len() > 0,
        s[0] == 105u8,
        parse_int(s) is Ok,
    ensures
        parse_int(s) matches Ok((v, n)) ==> encoding(v) == s.subrange(0, n as int),
{
    let neg = s.len() > 1 && s[1] == 45u8;
    let start: int = if neg { 2 } else { 1 };
    let end = digits_end(s, start);
    lemma_digits_run(s, start);
    let d = s.subrange(start, end);
    assert forall|k: int| 0 <= k < d.len() implies is_digit(#[trigger] d[k]) by {
        assert(d[k] == s[start + k]);
    }
    lemma_digits_text(d);
    if neg {
        assert(s.subrange(0, end + 1) =~= seq![105u8] + (seq![45u8] + d) + seq![101u8]);
    } else {
        assert(s.subrange(0, end + 1) =~= seq![105u8] + d + seq![101u8]);
    }
}

/// A parsed byte string with a canonical length re-encodes to the bytes it
/// was read from.
proof fn lemma_reencode_bytes(s: Seq<u8>)
    requires
        s.len() > 0,
        is_digit(s[0]),
        parse_bytes(s) is Ok,
        canonical_length(s),
    ensures
        parse_bytes(s) matches Ok((b, n)) ==> bytes_encoding(b) == s.subrange(0, n as int),
{
    let end = digits_end(s, 0);
    lemma_digits_run(s, 0);
    let d = s.subrange(0, end);
    assert forall|k: int| 0 <= k < d.len() implies is_digit(#[trigger] d[k]) by {
        assert(d[k] == s[k]);
    }
    lemma_digits_run(s, 1);
    assert(digits_end(s, 0) == digits_end(s, 1));
    lemma_digits_text(d);
    let n = digits_value(d);
    assert(s.subrange(0, end + 1 + n) =~= d + seq![58u8] + s.subrange(end + 1, end + 1 + n));
}

/// A value that reads takes at least one byte and no more than there are.
pub proof fn lemma_parse_bounds(s: Seq<u8>)
    ensures
        parse_value(s) matches Ok((_, n)) ==> 0 < n <= s.len(),
    decreases s.len(), 0nat,
{
    lemma_digits_run(s, 0);
    lemma_digits_run(s, 1);
    lemma_digits_run(s, 2);
    if s.len() > 0 && (s[0] == 108u8 || s[0] == 100u8) {
        lemma_parse_items_bounds(s.subrange(1, s.len() as int));
        lemma_parse_entries_bounds(s.subrange(1, s.len() as int));
    }
}

/// List elements that read take no more bytes than there are.
pub proof fn lemma_parse_items_bounds(s: Seq<u8>)
    ensures
        parse_items(s) matches Ok((_, n)) ==> 0 < n <= s.len(),
    decreases s.len(), 1nat,
{
    if s.len() > 0 && s[0] != 101u8 {
        lemma_parse_bounds(s);
        if let Ok((_, k)) = parse_value(s) {
            if 0 < k <= s.len() {
                lemma_parse_items_bounds(s.subrange(k as int, s.len() as int));
            }
        }
    }
}

/// Dictionary entries that read take no more bytes than there are.
pub proof fn lemma_parse_entries_bounds(s: Seq<u8>)
    ensures
        parse_entries(s) matches Ok((_, n)) ==> 0 < n <= s.len(),
    decreases s.len(), 1nat,
{
    if s.len() > 0 && s[0] != 101u8 && is_digit(s[0]) {
        if let Ok((_, kn)) = parse_bytes(s) {
            if 0 < kn <= s.len() {
                let t = s.subrange(kn as int, s.len() as int);
                lemma_parse_bounds(t);
                if let Ok((_, vn)) = parse_value(t) {
                    if 0 < vn <= t.len() {
                        lemma_parse_entries_bounds(t.subrange(vn as int, t.len() as int));
                    }
                }
            }
        }
    }
}

/// Reading then re-encoding gives back exactly the bytes read, for every
/// input whose byte-string lengths carry no leading zero.
pub proof fn lemma_reencode(s: Seq<u8>)
    requires
        canonical_value(s),
    ensures
        parse_value(s) matches Ok((v, n)) ==> encoding(v) == s.subrange(0, n as int),
    decreases s.len(), 0nat,
{
    if parse_value(s) is Ok {
        if s[0] == 105u8 {
            lemma_reencode_int(s);
        } else if is_digit(s[0]) {
            lemma_reencode_bytes(s);
        } else if s[0] == 108u8 {
            let t = s.subrange(1, s.len() as int);
            lemma_parse_items_bounds(t);
            lemma_reencode_items(t);
            if let Ok((items, m)) = parse_items(t) {
                assert(s.subrange(0, (m + 1) as int) =~= seq![108u8] + t.subrange(0, m as int));
            }
        } else if s[0] == 100u8 {
            let t = s.subrange(1, s.len() as int);
            lemma_parse_entries_bounds(t);
            lemma_reencode_entries(t);
            if let Ok((entries, m)) = parse_entries(t) {
                assert(s.subrange(0, (m + 1) as int) =~= seq![100u8] + t.subrange(0, m as int));
            }
        }
    }
}

/// Canonical list elements re-encode to the bytes they were read from,
/// closing `e` included.
pub proof fn lemma_reencode_items(s: Seq<u8>)
    requires
        canonical_items(s),
    ensures
        parse_items(s) matches Ok((items, n)) ==> items_encoding(items) + seq![101u8] == s.subrange(
            0,
            n as int,
        ),
    decreases s.len(), 1nat,
{
    if parse_items(s) is Ok {
        if s[0] == 101u8 {
            assert(s.subrange(0, 1) =~= seq![101u8]);
            assert(items_encoding(Seq::<BValue>::empty()) + seq![101u8] =~= seq![101u8]);
        } else if let Ok((v, k)) = parse_value(s) {
            lemma_reencode(s);
            lemma_parse_bounds(s);
            let t = s.subrange(k as int, s.len() as int);
            lemma_parse_items_bounds(t);
            lemma_reencode_items(t);
            if let Ok((rest, m)) = parse_items(t) {
                let items = seq![v] + rest;
                assert(items.subrange(1, items.len() as int) =~= rest);
                assert(items[0] == v);
                assert(s.subrange(0, (k + m) as int) =~= s.subrange(0, k as int) + t.subrange(0, m as int));
                assert(items_encoding(items) + seq![101u8] =~= encoding(v) + (items_encoding(rest)
                    + seq![101u8]));
            }
        }
    }
}

/// Canonical dictionary entries re-encode to the bytes they were read from,
/// in the same order, closing `e` included.
pub proof fn lemma_reencode_entries(s: Seq<u8>)
    requires
        canonical_entries(s),
    ensures
        parse_entries(s) matches Ok((entries, n)) ==> entries_encoding(entries) + seq![101u8]
            == s.subrange(0, n as int),
    decreases s.len(), 1nat,
{
    if parse_entries(s) is Ok {
        if s[0] == 101u8 {
            assert(s.subrange(0, 1) =~= seq![101u8]);
            assert(entries_encoding(Seq::<(Seq<u8>, BValue)>::empty()) + seq![101u8] =~= seq![101u8]);
        } else if let Ok((key, kn)) = parse_bytes(s) {
            lemma_reencode_bytes(s);
            let t = s.subrange(kn as int, s.len() as int);
            if let Ok((v, vn)) = parse_value(t) {
                lemma_reencode(t);
                lemma_parse_bounds(t);
                let u = t.subrange(vn as int, t.len() as int);
                lemma_parse_entries_bounds(u);
                lemma_reencode_entries(u);
                if let Ok((rest, m)) = parse_entries(u) {
                    let entries = seq![(key, v)] + rest;
                    assert(entries.subrange(1, entries.len() as int) =~= rest);
                    assert(entries[0] == (key, v));
                    assert(s.subrange(0, (kn + vn + m) as int) =~= s.subrange(0, kn as int) + t.subrange(
                        0,
                        vn as int,
                    ) + u.subrange(0, m as int));
                    assert(entries_encoding(entries) + seq![101u8] =~= bytes_encoding(key)
                        + encoding(v) + (entries_encoding(rest) + seq![101u8]));
                }
            }
        }
    }
}

/// The length prefix of a byte string's encoding has no leading zero.
proof fn lemma_bytes_encoding_canonical(b: Seq<u8>, rest: Seq<u8>)
    ensures
        canonical_length(bytes_encoding(b) + rest),
{
    let s = bytes_encoding(b) + rest;
    let t = nat_text(b.len());
    lemma_nat_text(b.len());
    lemma_digits_end(s, 0, t.len() as int);
}

/// Every encoding of a well-formed value is canonical, whatever follows it.
pub proof fn lemma_encoding_canonical(v: BValue, rest: Seq<u8>)
    requires
        well_formed(v),
    ensures
        canonical_value(encoding(v) + rest),
    decreases v,
{
    let s = encoding(v) + rest;
    match v {
        BValue::Bytes(b) => {
            lemma_nat_text(b.len());
            lemma_bytes_encoding_canonical(b, rest);
        },
        BValue::List(items) => {
            lemma_items_encoding_canonical(items, rest);
            assert(s.subrange(1, s.len() as int) =~= items_encoding(items) + seq![101u8] + rest);
        },
        BValue::Dict(entries) => {
            lemma_entries_encoding_canonical(entries, rest);
            assert(s.subrange(1, s.len() as int) =~= entries_encoding(entries) + seq![101u8] + rest);
        },
        _ => {},
    }
}

/// The encoding of well-formed list elements is canonical.
proof fn lemma_items_encoding_canonical(items: Seq<BValue>, rest: Seq<u8>)
    requires
        items_well_formed(items),
    ensures
        canonical_items(items_encoding(items) + seq![101u8] + rest),
    decreases items,
{
    let s = items_encoding(items) + seq![101u8] + rest;
    if items.len() == 0 {
        assert(s[0] == 101u8);
    } else {
        let tail = items.subrange(1, items.len() as int);
        let e0 = encoding(items[0]);
        let r2 = items_encoding(tail) + seq![101u8] + rest;
        assert(s =~= e0 + r2);
        lemma_encoding_head(items[0]);
        lemma_parse_encoding(items[0], r2);
        lemma_encoding_canonical(items[0], r2);
        assert(s.subrange(e0.len() as int, s.len() as int) =~= r2);
        lemma_items_encoding_canonical(tail, rest);
    }
}

/// The encoding of well-formed dictionary entries is canonical.
#[verifier::rlimit(50)]
proof fn lemma_entries_encoding_canonical(entries: Seq<(Seq<u8>, BValue)>, rest: Seq<u8>)
    requires
        entries_well_formed(entries),
    ensures
        canonical_entries(entries_encoding(entries) + seq![101u8] + rest),
    decreases entries,
{
    let s = entries_encoding(entries) + seq![101u8] + rest;
    if entries.len() == 0 {
        assert(s[0] == 101u8);
    } else {
        let tail = entries.subrange(1, entries.len() as int);
        let k0 = bytes_encoding(entries[0].0);
        let v0 = encoding(entries[0].1);
        let r2 = entries_encoding(tail) + seq![101u8] + rest;
        assert(s =~= k0 + (v0 + r2));
        lemma_nat_text(entries[0].0.len());
        lemma_parse_bytes_encoding(entries[0].0, v0 + r2);
        lemma_bytes_encoding_canonical(entries[0].0, v0 + r2);
        let t = s.subrange(k0.len() as int, s.len() as int);
        assert(t =~= v0 + r2);
        assert(decreases_to!(entries[0] => entries[0].1));
        lemma_parse_encoding(entries[0].1, r2);
        lemma_encoding_canonical(entries[0].1, r2);
        assert(t.subrange(v0.len() as int, t.len() as int) =~= r2);
        lemma_entries_encoding_canonical(tail, rest);
    }
}

/// A byte string survives decoding and encoding unchanged, whatever bytes it
/// holds.
pub proof fn lemma_byte_string_round_trip(b: Seq<u8>)
    ensures
        parse_value(encoding(BValue::Bytes(b))) == Ok::<(BValue, nat), BencodeError>(
            (BValue::Bytes(b), encoding(BValue::Bytes(b)).len()),
        ),
        parse_value(encoding(BValue::Bytes(b))) matches Ok((v, _)) && encoding(v) == encoding(
            BValue::Bytes(b),
        ),
{
    lemma_decode_encode(BValue::Bytes(b));
}

/// A dictionary decodes with its entries in the order in which they were
/// written, whatever that order, and encodes back to the same bytes.
pub proof fn lemma_dictionary_order_kept(entries: Seq<(Seq<u8>, BValue)>)
    requires
        entries_well_formed(entries),
    ensures
        parse_value(encoding(BValue::Dict(entries))) == Ok::<(BValue, nat), BencodeError>(
            (BValue::Dict(entries), encoding(BValue::Dict(entries)).len()),
        ),
        parse_value(encoding(BValue::Dict(entries))) matches Ok((v, _)) && encoding(v) == encoding(
            BValue::Dict(entries),
        ),
{
    lemma_decode_encode(BValue::Dict(entries));
}

/// The value of the first entry whose key is `key`.
pub open spec fn lookup(entries: Seq<(Seq<u8>, BValue)>, key: Seq<u8>) -> Option<BValue>
    decreases entries.len(),
{
    if entries.len() == 0 {
        None
    } else if entries[0].0 == key {
        Some(entries[0].1)
    } else {
        lookup(entries.subrange(1, entries.len() as int), key)
    }
}

/// Whether two byte slices hold the same bytes.
pub fn bytes_equal(a: &[u8], b: &[u8]) -> (r: bool)
    ensures
        r == (a@ == b@),
{
    if a.len() != b.len() {
        return false;
    }
    let mut i: usize = 0;
    while i < a.len()
        invariant
            i <= a@.len(),
            a@.len() == b@.len(),
            forall|k: int| 0 <= k < i ==> a@[k] == b@[k],
        decreases a.len() - i,
    {
        if a[i] != b[i] {
            return false;
        }
        i += 1;
    }
    assert(a@ =~= b@);
    true
}

/// The position of the first entry whose key is `key`.
pub fn dict_find(entries: &Vec<(Vec<u8>, Value)>, key: &[u8]) -> (r: Option<usize>)
    ensures
        match r {
            Some(i) => i < entries@.len() && lookup(entries_model(entries@), key@) == Some(
                entries@[i as int].1@,
            ),
            None => lookup(entries_model(entries@), key@) is None,
        },
{
    let ghost m = entries_model(entries@);
    proof {
        lemma_entries_model(entries@);
        assert(m.subrange(0, m.len() as int) =~= m);
    }
    let mut i: usize = 0;
    while i < entries.len()
        invariant
            i <= entries@.len(),
            m == entries_model(entries@),
            m.len() == entries@.len(),
            forall|k: int|
                0 <= k < entries@.len() ==> #[trigger] m[k] == (entries@[k].0@, value_model(
                    entries@[k].1,
                )),
            lookup(m, key@) == lookup(m.subrange(i as int, m.len() as int), key@),
        decreases entries.len() - i,
    {
        let ghost sub = m.subrange(i as int, m.len() as int);
        assert(sub[0] == m[i as int]);
        if bytes_equal(entries[i].0.as_slice(), key) {
            return Some(i);
        }
        assert(sub.subrange(1, sub.len() as int) =~= m.subrange(i + 1, m.len() as int));
        i += 1;
    }
    None
}

/// Re-encoding a dictionary read from canonical bytes gives those bytes
/// back: its entries keep the order in which they were read.
pub proof fn lemma_dictionary_reencode(s: Seq<u8>)
    requires
        canonical_value(s),
        s.len() > 0,
        s[0] == 100u8,
    ensures
        parse_value(s) matches Ok((v, n)) ==> v is Dict && encoding(v) == s.subrange(0, n as int),
{
    lemma_reencode(s);
}

} // verus!
