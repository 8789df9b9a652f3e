//! The focus attribute that the compositor writes on application cgroups.

use crate::path;
use crate::path::PathModel;
use crate::paths;
use crate::paths::{PathMap, PathSet};
use crate::text;
use vstd::prelude::*;
use vstd::string::*;
use vstd::utf8::*;

verus! {

/// What a focus attribute says: `-1` where the application is active, else the time
/// since when it is inactive.
pub open spec fn active(value: Seq<u8>) -> Result<bool, &'static str> {
    match text::utf8_text(value) {
        None => Err("focus xattr is not UTF-8"),
        Some(content) => if content == "-1"@ {
            Ok(true)
        } else {
            match text::number(content) {
                Some(_) => Ok(false),
                None => Err("invalid focus xattr"),
            }
        },
    }
}

/// Whether a cgroup claims the focus: it has the attribute, and the attribute says so.
pub open spec fn claims(value: Option<Seq<u8>>) -> bool {
    match value {
        Some(bytes) => active(bytes) matches Ok(true),
        None => false,
    }
}

/// The cgroups that claim the focus.
pub open spec fn claimants(values: Seq<(PathModel, Option<Seq<u8>>)>) -> Seq<PathModel>
    decreases values.len(),
{
    if values.len() == 0 {
        Seq::empty()
    } else {
        let rest = claimants(values.drop_last());
        if claims(values.last().1) {
            paths::with(rest, values.last().0)
        } else {
            rest
        }
    }
}

/// The value of a cgroup's focus attribute, if it has one.
pub struct FocusValue {
    pub bytes: Option<Vec<u8>>,
}

impl View for FocusValue {
    type V = Option<Seq<u8>>;

    open spec fn view(&self) -> Option<Seq<u8>> {
        match self.bytes {
            Some(bytes) => Some(bytes@),
            None => None,
        }
    }
}

impl FocusValue {
    /// Whether two cgroups have the same attribute.
    pub fn same(&self, other: &FocusValue) -> (same: bool)
        ensures
            same == (self@ == other@),
    {
        match (&self.bytes, &other.bytes) {
            (Some(a), Some(b)) => path::same_bytes(a, b),
            (None, None) => true,
            _ => false,
        }
    }

    /// A copy of the attribute.
    pub fn duplicate(&self) -> (copy: Self)
        ensures
            copy@ == self@,
    {
        FocusValue {
            bytes: match &self.bytes {
                Some(bytes) => Some(path::copy_bytes(bytes)),
                None => None,
            },
        }
    }

    /// Whether the cgroup claims the focus.
    pub fn claims(&self) -> (claiming: bool)
        ensures
            claiming == claims(self@),
    {
        match &self.bytes {
            Some(bytes) => match focus_is_active(bytes.as_slice()) {
                Ok(active) => active,
                Err(_) => false,
            },
            None => false,
        }
    }
}

/// Whether a focus attribute says that the application is active.
pub fn focus_is_active(value: &[u8]) -> (parsed: Result<bool, &'static str>)
    ensures
        parsed == active(value@),
{
    match text::utf8(value) {
        None => Err("focus xattr is not UTF-8"),
        Some(content) => {
            if text::same_text(content, "-1") {
                return Ok(true);
            }
            match text::read_number(content) {
                Some(_) => Ok(false),
                None => Err("invalid focus xattr"),
            }
        },
    }
}

/// The cgroups that claim the focus.
pub fn active_paths(values: &PathMap<FocusValue>) -> (active: PathSet)
    ensures
        active@ == claimants(values@),
{
    let mut active = PathSet::new();
    let count: usize = values.len();
    let mut i: usize = 0;
    proof {
        assert(values@.take(0) =~= Seq::<(PathModel, Option<Seq<u8>>)>::empty());
    }
    while i < count
        invariant
            count == values@.len(),
            i <= count,
            active@ == claimants(values@.take(i as int)),
        decreases count - i,
    {
        proof {
            assert(values@.take(i + 1).drop_last() =~= values@.take(i as int));
            assert(values@.take(i + 1).last() == values@[i as int]);
        }
        if values.value(i).claims() {
            active.insert(values.key(i).duplicate());
        }
        i = i + 1;
    }
    proof {
        assert(values@.take(i as int) =~= values@);
    }
    active
}

/// An attribute says that its application is active exactly if it is `-1`. Any number says
/// that it is not, and anything else makes no sense.
pub proof fn minus_one_means_active(value: Seq<u8>)
    ensures
        active(value) == Ok::<bool, &'static str>(true) <==> value == seq![45u8, 49u8],
        valid_utf8(value) && text::number(decode_utf8(value)) is Some <==> active(value) == Ok::<
            bool,
            &'static str,
        >(false),
        active(value) is Err <==> value != seq![45u8, 49u8] && !(valid_utf8(value) && text::number(
            decode_utf8(value),
        ) is Some),
        claims(Some(value)) <==> value == seq![45u8, 49u8],
        !claims(None),
{
    reveal_strlit("-1");
    let bytes = seq![45u8, 49u8];
    let word = "-1"@;
    assert(encode_utf8(word) =~= bytes) by {
        is_ascii_chars_encode_utf8(word);
        assert(word.len() == 2 && word[0] == '-' && word[1] == '1');
        assert(encode_utf8(word)[0] == word[0] as u8);
        assert(encode_utf8(word)[1] == word[1] as u8);
    }
    encode_utf8_valid_utf8(word);
    encode_utf8_decode_utf8(word);
    if valid_utf8(value) && decode_utf8(value) == word {
        decode_utf8_encode_utf8(value);
    }
    assert(!text::is_digit(word[0]));
    assert(text::unsigned_digits(word) == word);
    assert(text::number(word) is None);
}

}
