//! Headers of a request.
use crate::json::str_view;
use crate::text::{same, string_view, trim, trimmed};
use vstd::prelude::*;
use vstd::string::*;

verus! {

/// A header: its name in lower case, and its value where that is visible ASCII.
#[derive(Debug)]
pub struct HeaderField {
    pub name: String,
    pub value: Option<String>,
}

impl View for HeaderField {
    type V = (Seq<char>, Option<Seq<char>>);

    open spec fn view(&self) -> (Seq<char>, Option<Seq<char>>) {
        (self.name@, string_view(self.value))
    }
}

/// What a list of headers holds.
pub open spec fn header_views(headers: Seq<HeaderField>) -> Seq<(Seq<char>, Option<Seq<char>>)> {
    Seq::new(headers.len(), |i: int| headers[i]@)
}

/// Whether a header of a name is there.
pub open spec fn has_header(headers: Seq<(Seq<char>, Option<Seq<char>>)>, name: Seq<char>) -> bool
    decreases headers.len(),
{
    headers.len() > 0 && (headers[0].0 == name || has_header(headers.drop_first(), name))
}

/// The value of the first header of a name, where it is text.
pub open spec fn header_text(
    headers: Seq<(Seq<char>, Option<Seq<char>>)>,
    name: Seq<char>,
) -> Option<Seq<char>>
    decreases headers.len(),
{
    if headers.len() == 0 {
        None
    } else if headers[0].0 == name {
        headers[0].1
    } else {
        header_text(headers.drop_first(), name)
    }
}

/// The value of the first header of a name without white space at its ends,
/// where something is left of it.
pub open spec fn header_word(
    headers: Seq<(Seq<char>, Option<Seq<char>>)>,
    name: Seq<char>,
) -> Option<Seq<char>> {
    match header_text(headers, name) {
        Some(value) => if trim(value).len() > 0 {
            Some(trim(value))
        } else {
            None
        },
        None => None,
    }
}

/// Whether a header of a name is there.
pub fn contains_header(headers: &Vec<HeaderField>, name: &str) -> (found: bool)
    ensures
        found == has_header(header_views(headers@), name@),
{
    let ghost all = header_views(headers@);
    assert(all.skip(0) =~= all);
    let mut index: usize = 0;
    while index < headers.len()
        invariant
            index <= headers@.len(),
            all == header_views(headers@),
            has_header(all, name@) == has_header(all.skip(index as int), name@),
        decreases headers@.len() - index,
    {
        assert(all.skip(index as int)[0] == headers@[index as int]@);
        assert(all.skip(index as int).drop_first() =~= all.skip(index + 1));
        if same(&headers[index].name, name) {
            return true;
        }
        index += 1;
    }
    false
}

/// The value of the first header of a name, where it is text.
pub fn get_header<'a>(headers: &'a Vec<HeaderField>, name: &str) -> (value: Option<&'a str>)
    ensures
        str_view(value) == header_text(header_views(headers@), name@),
{
    let ghost all = header_views(headers@);
    assert(all.skip(0) =~= all);
    let mut index: usize = 0;
    while index < headers.len()
        invariant
            index <= headers@.len(),
            all == header_views(headers@),
            header_text(all, name@) == header_text(all.skip(index as int), name@),
        decreases headers@.len() - index,
    {
        assert(all.skip(index as int)[0] == headers@[index as int]@);
        assert(all.skip(index as int).drop_first() =~= all.skip(index + 1));
        if same(&headers[index].name, name) {
            return match &headers[index].value {
                Some(value) => Some(value.as_str()),
                None => None,
            };
        }
        index += 1;
    }
    None
}

/// The value of the first header of a name without white space at its ends,
/// where something is left of it.
pub fn get_header_word(headers: &Vec<HeaderField>, name: &str) -> (value: Option<String>)
    ensures
        string_view(value) == header_word(header_views(headers@), name@),
{
    match get_header(headers, name) {
        Some(value) => {
            let value = trimmed(value);
            if value.as_str().is_empty() {
                None
            } else {
                Some(value)
            }
        },
        None => None,
    }
}

} // verus!
