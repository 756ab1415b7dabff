//! The lines of the input files, as bytes: fields separated by single
//! spaces, and a metric written as a decimal number.

use vstd::prelude::*;

verus! {

/// The byte that separates two fields: a space.
pub open spec fn is_separator(b: u8) -> bool {
    b == 32
}

/// The fields of a line. A space ends a field and begins the next one; any
/// other byte is added to the last field. So a line without a space is one
/// field, and two spaces in a row have an empty field between them.
pub open spec fn fields(line: Seq<u8>) -> Seq<Seq<u8>>
    decreases line.len(),
{
    if line.len() == 0 {
        seq![Seq::<u8>::empty()]
    } else {
        let before = fields(line.drop_last());
        if is_separator(line.last()) {
            before.push(Seq::<u8>::empty())
        } else {
            before.drop_last().push(before.last().push(line.last()))
        }
    }
}

/// A line has at least one field.
pub proof fn lemma_fields_not_empty(line: Seq<u8>)
    ensures
        fields(line).len() >= 1,
    decreases line.len(),
{
    if line.len() > 0 {
        lemma_fields_not_empty(line.drop_last());
    }
}

/// The bytes of `list`, each vector as a sequence.
pub open spec fn views(list: Seq<Vec<u8>>) -> Seq<Seq<u8>> {
    Seq::new(list.len(), |i: int| list[i]@)
}

/// Splits a line into its fields.
pub fn split_fields(line: &[u8]) -> (out: Vec<Vec<u8>>)
    ensures
        views(out@) == fields(line@),
{
    let mut done: Vec<Vec<u8>> = Vec::new();
    let mut current: Vec<u8> = Vec::new();
    let mut i: usize = 0;
    while i < line.len()
        invariant
            i <= line@.len(),
            views(done@).push(current@) == fields(line@.take(i as int)),
        decreases line@.len() - i,
    {
        let b = line[i];
        proof {
            let upto = line@.take(i + 1);
            assert(upto.drop_last() == line@.take(i as int));
            assert(upto.last() == b);
            let before = views(done@).push(current@);
            assert(before.drop_last() == views(done@));
            assert(before.last() == current@);
        }
        if b == 32 {
            let ghost before = views(done@);
            done.push(current);
            current = Vec::new();
            assert(views(done@) == before.push(done@[done@.len() - 1]@));
        } else {
            current.push(b);
        }
        i += 1;
    }
    assert(line@.take(line@.len() as int) == line@);
    let ghost before = views(done@);
    done.push(current);
    assert(views(done@) == before.push(done@[done@.len() - 1]@));
    done
}

/// The byte is a decimal digit.
pub open spec fn is_digit(b: u8) -> bool {
    48 <= b <= 57
}

/// Every byte is a decimal digit.
pub open spec fn all_digits(text: Seq<u8>) -> bool {
    forall|i: int| 0 <= i < text.len() ==> is_digit(#[trigger] text[i])
}

/// The number that the digits write in base ten.
pub open spec fn digits_value(digits: Seq<u8>) -> int
    decreases digits.len(),
{
    if digits.len() == 0 {
        0
    } else {
        10 * digits_value(digits.drop_last()) + (digits.last() - 48)
    }
}

/// The text begins with a sign, `+` or `-`.
pub open spec fn is_signed(text: Seq<u8>) -> bool {
    text.len() > 0 && (text[0] == 43 || text[0] == 45)
}

/// The metric that a text writes: an optional sign, then at least one
/// digit and nothing but digits, for a number that fits 32 bits. Any other
/// text writes none.
pub open spec fn metric_of(text: Seq<u8>) -> Option<i32> {
    let digits = if is_signed(text) {
        text.skip(1)
    } else {
        text
    };
    let value = if is_signed(text) && text[0] == 45 {
        -digits_value(digits)
    } else {
        digits_value(digits)
    };
    if digits.len() > 0 && all_digits(digits) && i32::MIN <= value <= i32::MAX {
        Some(value as i32)
    } else {
        None
    }
}

/// More digits do not write a smaller number.
pub proof fn lemma_digits_grow(digits: Seq<u8>, k: int)
    requires
        all_digits(digits),
        0 <= k <= digits.len(),
    ensures
        0 <= digits_value(digits.take(k)) <= digits_value(digits),
    decreases digits.len() - k,
{
    if k == digits.len() {
        assert(digits.take(k) == digits);
        lemma_digits_nonneg(digits);
    } else {
        lemma_digits_grow(digits, k + 1);
        assert(digits.take(k + 1).drop_last() == digits.take(k));
        assert(is_digit(digits[k]));
        lemma_digits_nonneg(digits.take(k));
    }
}

/// Digits write a number that is not negative.
pub proof fn lemma_digits_nonneg(digits: Seq<u8>)
    requires
        all_digits(digits),
    ensures
        0 <= digits_value(digits),
    decreases digits.len(),
{
    if digits.len() > 0 {
        assert(is_digit(digits[digits.len() - 1]));
        lemma_digits_nonneg(digits.drop_last());
    }
}

/// Reads the metric that `text` writes, if it writes one.
pub fn parse_metric(text: &[u8]) -> (out: Option<i32>)
    ensures
        out == metric_of(text@),
{
    let n = text.len();
    let signed = n > 0 && (text[0] == 43 || text[0] == 45);
    let negative = signed && text[0] == 45;
    let first: usize = if signed {
        1
    } else {
        0
    };
    if first == n {
        return None;
    }
    let ghost digits = text@.skip(first as int);
    proof {
        assert(text@.skip(0) == text@);
        assert(digits == if is_signed(text@) {
            text@.skip(1)
        } else {
            text@
        });
    }
    let mut value: i64 = 0;
    let mut i: usize = first;
    while i < n
        invariant
            first <= i <= n,
            n == text@.len(),
            digits == text@.skip(first as int),
            digits == if is_signed(text@) {
                text@.skip(1)
            } else {
                text@
            },
            digits.len() > 0,
            negative == (is_signed(text@) && text@[0] == 45),
            all_digits(digits.take(i - first)),
            value == digits_value(digits.take(i - first)),
            0 <= value <= 0x8000_0000,
        decreases n - i,
    {
        let b = text[i];
        if b < 48 || b > 57 {
            assert(!is_digit(digits[i - first]));
            return None;
        }
        proof {
            let upto = digits.take(i - first + 1);
            assert(upto.drop_last() == digits.take(i - first));
            assert(upto.last() == b);
            assert forall|j: int| 0 <= j < upto.len() implies is_digit(#[trigger] upto[j]) by {
                if j < i - first {
                    assert(digits.take(i - first)[j] == upto[j]);
                }
            }
        }
        value = value * 10 + (b - 48) as i64;
        if value > 0x8000_0000 {
            proof {
                if all_digits(digits) {
                    lemma_digits_grow(digits, i - first + 1);
                }
            }
            return None;
        }
        i += 1;
    }
    assert(digits.take(n - first) == digits);
    if negative {
        Some((-value) as i32)
    } else if value == 0x8000_0000 {
        None
    } else {
        Some(value as i32)
    }
}

/// A copy of the bytes.
pub fn copy_bytes(bytes: &[u8]) -> (out: Vec<u8>)
    ensures
        out@ == bytes@,
{
    let mut out: Vec<u8> = Vec::new();
    let mut i: usize = 0;
    while i < bytes.len()
        invariant
            i <= bytes@.len(),
            out@ == bytes@.take(i as int),
        decreases bytes@.len() - i,
    {
        out.push(bytes[i]);
        assert(bytes@.take(i + 1) == bytes@.take(i as int).push(bytes@[i as int]));
        i += 1;
    }
    assert(bytes@.take(bytes@.len() as int) == bytes@);
    out
}

/// Whether the two hold the same bytes.
pub fn same_bytes(a: &[u8], b: &[u8]) -> (out: bool)
    ensures
        out == (a@ == b@),
{
    if a.len() != b.len() {
        return false;
    }
    let mut i: usize = 0;
    while i < a.len()
        invariant
            i <= a@.len(),
            a@.len() == b@.len(),
            forall|j: int| 0 <= j < i ==> a@[j] == b@[j],
        decreases a@.len() - i,
    {
        if a[i] != b[i] {
            return false;
        }
        i += 1;
    }
    assert(a@ =~= b@);
    true
}

/// The link that a line of a topology file describes: the names of two
/// nodes and a metric, in its first three fields. Further fields do not
/// count. A line with fewer fields, or without a metric in the third,
/// describes none.
pub open spec fn link_of(line: Seq<u8>) -> Option<(Seq<u8>, Seq<u8>, i32)> {
    let parts = fields(line);
    if parts.len() >= 3 && metric_of(parts[2]).is_some() {
        Some((parts[0], parts[1], metric_of(parts[2]).unwrap()))
    } else {
        None
    }
}

/// Reads the link that a line of a topology file describes.
pub fn parse_link(line: &[u8]) -> (out: Option<(Vec<u8>, Vec<u8>, i32)>)
    ensures
        match out {
            Some((a, b, metric)) => link_of(line@) == Some((a@, b@, metric)),
            None => link_of(line@).is_none(),
        },
{
    let parts = split_fields(line);
    assert(views(parts@).len() == parts@.len());
    if parts.len() < 3 {
        return None;
    }
    assert(views(parts@)[0] == parts@[0]@);
    assert(views(parts@)[1] == parts@[1]@);
    assert(views(parts@)[2] == parts@[2]@);
    let metric = match parse_metric(parts[2].as_slice()) {
        Some(metric) => metric,
        None => return None,
    };
    let a = copy_bytes(parts[0].as_slice());
    let b = copy_bytes(parts[1].as_slice());
    Some((a, b, metric))
}

/// The multicast source that a line describes: the name of a node and an
/// address, in its first two fields. A line with one field describes none.
pub open spec fn source_of(line: Seq<u8>) -> Option<(Seq<u8>, Seq<u8>)> {
    let parts = fields(line);
    if parts.len() >= 2 {
        Some((parts[0], parts[1]))
    } else {
        None
    }
}

/// Reads the multicast source that a line describes.
pub fn parse_source(line: &[u8]) -> (out: Option<(Vec<u8>, Vec<u8>)>)
    ensures
        match out {
            Some((name, address)) => source_of(line@) == Some((name@, address@)),
            None => source_of(line@).is_none(),
        },
{
    let parts = split_fields(line);
    assert(views(parts@).len() == parts@.len());
    if parts.len() < 2 {
        return None;
    }
    assert(views(parts@)[0] == parts@[0]@);
    assert(views(parts@)[1] == parts@[1]@);
    let name = copy_bytes(parts[0].as_slice());
    let address = copy_bytes(parts[1].as_slice());
    Some((name, address))
}

} // verus!
