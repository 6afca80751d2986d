//! Texts put together.
use vstd::prelude::*;
use vstd::string::*;

use crate::core_types::{digit_char, digit_text};

verus! {

/// Texts one after the other.
pub open spec fn joined(parts: Seq<Seq<char>>) -> Seq<char>
    decreases parts.len(),
{
    if parts.len() == 0 {
        Seq::empty()
    } else {
        joined(parts.drop_last()) + parts.last()
    }
}

/// A text made of parts.
pub fn concat(parts: &Vec<&str>) -> (s: String)
    ensures
        s@ == joined(parts@.map_values(|p: &str| p@)),
{
    let ghost model = parts@.map_values(|p: &str| p@);
    let mut s = String::new();
    let mut i: usize = 0;
    assert(model.take(0) =~= Seq::<Seq<char>>::empty());
    while i < parts.len()
        invariant
            i <= parts@.len(),
            model == parts@.map_values(|p: &str| p@),
            s@ == joined(model.take(i as int)),
        decreases parts@.len() - i,
    {
        proof {
            assert(model.take(i + 1).drop_last() =~= model.take(i as int));
            assert(model.take(i + 1).last() == parts@[i as int]@);
        }
        s.append(parts[i]);
        i = i + 1;
    }
    assert(model.take(i as int) =~= model);
    s
}

/// A text behind a label.
pub fn labelled(label: &str, text: &str) -> (s: String)
    ensures
        s@ == label@ + text@,
{
    let mut s = label.to_owned();
    s.append(text);
    s
}

/// The decimal digits of a number.
pub open spec fn digits(n: nat) -> Seq<char>
    decreases n,
{
    if n < 10 {
        seq![digit_char(n as int)]
    } else {
        digits(n / 10).push(digit_char(n as int % 10))
    }
}

/// A number in decimal digits.
pub fn decimal(n: usize) -> (s: String)
    ensures
        s@ == digits(n as nat),
    decreases n,
{
    if n < 10 {
        digit_text(n as u8).to_owned()
    } else {
        let mut s = decimal(n / 10);
        s.append(digit_text((n % 10) as u8));
        assert(s@ =~= digits(n as nat));
        s
    }
}

} // verus!
