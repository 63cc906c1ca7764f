//! Pieces of generated source text: numbers and lists.

use vstd::prelude::*;
use vstd::string::StringExecFns;

verus! {

/// The decimal digit `d`.
pub open spec fn digit_text(d: nat) -> Seq<char> {
    if d == 0 {
        "0"@
    } else if d == 1 {
        "1"@
    } else if d == 2 {
        "2"@
    } else if d == 3 {
        "3"@
    } else if d == 4 {
        "4"@
    } else if d == 5 {
        "5"@
    } else if d == 6 {
        "6"@
    } else if d == 7 {
        "7"@
    } else if d == 8 {
        "8"@
    } else {
        "9"@
    }
}

/// The number `n` in decimal digits, without leading zeros.
pub open spec fn decimal_text(n: nat) -> Seq<char>
    decreases n,
{
    if n < 10 {
        digit_text(n)
    } else {
        decimal_text(n / 10) + digit_text(n % 10)
    }
}

/// The items one after the other, each followed by `end`.
pub open spec fn each_ended(items: Seq<Seq<char>>, end: Seq<char>) -> Seq<char>
    decreases items.len(),
{
    if items.len() == 0 {
        Seq::empty()
    } else {
        each_ended(items.drop_last(), end) + items.last() + end
    }
}

/// The items one after the other with `between` between them.
pub open spec fn joined(items: Seq<Seq<char>>, between: Seq<char>) -> Seq<char>
    decreases items.len(),
{
    if items.len() == 0 {
        Seq::empty()
    } else if items.len() == 1 {
        items[0]
    } else {
        joined(items.drop_last(), between) + between + items.last()
    }
}

/// A list literal: the items between `&[` and `]`, each followed by a comma.
pub open spec fn list_text(items: Seq<Seq<char>>) -> Seq<char> {
    "&["@ + each_ended(items, ","@) + "]"@
}

/// A byte string as a list of its bytes in decimal, with a `&` before it.
pub open spec fn bytes_text(bytes: Seq<u8>) -> Seq<char> {
    "&["@ + joined(bytes.map_values(|b: u8| decimal_text(b as nat)), ", "@) + "]"@
}

/// The numbers in decimal.
pub open spec fn decimal_texts(values: Seq<u32>) -> Seq<Seq<char>> {
    values.map_values(|v: u32| decimal_text(v as nat))
}

/// The byte strings as lists of their bytes.
pub open spec fn bytes_texts(items: Seq<Vec<u8>>) -> Seq<Seq<char>> {
    items.map_values(|b: Vec<u8>| bytes_text(b@))
}

/// The views of the strings.
pub open spec fn texts(items: Seq<String>) -> Seq<Seq<char>> {
    items.map_values(|s: String| s@)
}

/// The decimal digit `d`.
fn digit(d: u64) -> (r: &'static str)
    requires
        d < 10,
    ensures
        r@ == digit_text(d as nat),
{
    if d == 0 {
        "0"
    } else if d == 1 {
        "1"
    } else if d == 2 {
        "2"
    } else if d == 3 {
        "3"
    } else if d == 4 {
        "4"
    } else if d == 5 {
        "5"
    } else if d == 6 {
        "6"
    } else if d == 7 {
        "7"
    } else if d == 8 {
        "8"
    } else {
        "9"
    }
}

/// Writes `n` in decimal digits.
pub fn decimal(n: u64) -> (r: String)
    ensures
        r@ == decimal_text(n as nat),
    decreases n,
{
    if n < 10 {
        String::from_str(digit(n))
    } else {
        let mut s = decimal(n / 10);
        s.append(digit(n % 10));
        s
    }
}

/// Writes a list literal of items that are already written out.
pub fn list_of(items: &Vec<String>) -> (r: String)
    ensures
        r@ == list_text(texts(items@)),
{
    let mut s = String::from_str("&[");
    let mut i: usize = 0;
    while i < items.len()
        invariant
            i <= items@.len(),
            s@ == "&["@ + each_ended(texts(items@).take(i as int), ","@),
        decreases items@.len() - i,
    {
        s.append(items[i].as_str());
        s.append(",");
        proof {
            let all = texts(items@);
            assert(all.take(i + 1).drop_last() =~= all.take(i as int));
            assert(all.take(i + 1).last() == items@[i as int]@);
        }
        i += 1;
    }
    proof {
        assert(texts(items@).take(items@.len() as int) =~= texts(items@));
    }
    s.append("]");
    s
}

/// Writes the numbers in decimal.
pub fn decimals(values: &Vec<u32>) -> (r: Vec<String>)
    ensures
        texts(r@) == decimal_texts(values@),
{
    let mut out: Vec<String> = Vec::new();
    let mut i: usize = 0;
    while i < values.len()
        invariant
            i <= values@.len(),
            out@.len() == i,
            forall|k: int| 0 <= k < i ==> (#[trigger] out@[k])@ == decimal_text(values@[k] as nat),
        decreases values@.len() - i,
    {
        out.push(decimal(values[i] as u64));
        i += 1;
    }
    assert(texts(out@) =~= decimal_texts(values@));
    out
}

/// Writes the bytes in decimal.
pub fn byte_decimals(values: &Vec<u8>) -> (r: Vec<String>)
    ensures
        texts(r@) == values@.map_values(|b: u8| decimal_text(b as nat)),
{
    let mut out: Vec<String> = Vec::new();
    let mut i: usize = 0;
    while i < values.len()
        invariant
            i <= values@.len(),
            out@.len() == i,
            forall|k: int| 0 <= k < i ==> (#[trigger] out@[k])@ == decimal_text(values@[k] as nat),
        decreases values@.len() - i,
    {
        out.push(decimal(values[i] as u64));
        i += 1;
    }
    assert(texts(out@) =~= values@.map_values(|b: u8| decimal_text(b as nat)));
    out
}

/// Writes a byte string as a list of its bytes in decimal, with a `&` before
/// it.
pub fn bytes_literal(bytes: &Vec<u8>) -> (r: String)
    ensures
        r@ == bytes_text(bytes@),
{
    let ghost all = bytes@.map_values(|b: u8| decimal_text(b as nat));
    let mut s = String::from_str("&[");
    let mut i: usize = 0;
    while i < bytes.len()
        invariant
            i <= bytes@.len(),
            all == bytes@.map_values(|b: u8| decimal_text(b as nat)),
            s@ == "&["@ + joined(all.take(i as int), ", "@),
        decreases bytes@.len() - i,
    {
        if i > 0 {
            s.append(", ");
        }
        let d = decimal(bytes[i] as u64);
        s.append(d.as_str());
        proof {
            assert(all.take(i + 1).drop_last() =~= all.take(i as int));
            assert(all.take(i + 1).last() == decimal_text(bytes@[i as int] as nat));
            if i == 0 {
                assert(all.take(1)[0] == decimal_text(bytes@[0] as nat));
                assert(joined(all.take(0), ", "@) =~= Seq::<char>::empty());
            }
        }
        i += 1;
    }
    proof {
        assert(all.take(bytes@.len() as int) =~= all);
    }
    s.append("]");
    s
}

} // verus!
