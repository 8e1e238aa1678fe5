//! MIME negotiation over the list of offered content types, testable
//! independently of any live clipboard.
//!
//! A `"text"` preference short-circuits to a direct text read.  An
//! `"image"` preference selects the first offered `image/*` type,
//! falling back to the first offered type.  `"any"` selects the first
//! offered `image/*` type if one is offered; otherwise, when the first
//! offered type is exactly `text/html`, that low-value wrapper is
//! skipped in favour of the first non-HTML alternative (HTML wins only
//! as the sole offering); otherwise the first offered type wins.

use vstd::prelude::*;

use crate::mime::{starts_with, string_starts_with};

verus! {

/// The caller's content preference.
#[derive(Clone, Copy, PartialEq, Eq, Structural)]
pub enum MimePreference {
    Text,
    Image,
    Any,
}

/// What negotiation decided.
pub enum MimeChoice {
    /// Read the clipboard directly as text.
    DirectText,
    /// Request the given offered type.
    Offered(String),
}

/// The model of a negotiation outcome.
pub enum MimeChoiceModel {
    DirectText,
    Offered(Seq<char>),
}

impl View for MimeChoice {
    type V = MimeChoiceModel;

    open spec fn view(&self) -> MimeChoiceModel {
        match self {
            MimeChoice::DirectText => MimeChoiceModel::DirectText,
            MimeChoice::Offered(s) => MimeChoiceModel::Offered(s@),
        }
    }
}

impl DeepView for MimeChoice {
    type V = MimeChoiceModel;

    open spec fn deep_view(&self) -> MimeChoiceModel {
        self.view()
    }
}

/// An offered type names an image format.
pub open spec fn is_image_type(s: Seq<char>) -> bool {
    starts_with(s, "image/"@)
}

/// Index of the first offered `image/*` type (the length when none).
pub open spec fn first_image(offered: Seq<Seq<char>>) -> nat
    decreases offered.len(),
{
    if offered.len() == 0 {
        0
    } else if is_image_type(offered[0]) {
        0
    } else {
        1 + first_image(offered.skip(1))
    }
}

/// Index of the first offered type other than `text/html` (the length
/// when none).
pub open spec fn first_non_html(offered: Seq<Seq<char>>) -> nat
    decreases offered.len(),
{
    if offered.len() == 0 {
        0
    } else if offered[0] != "text/html"@ {
        0
    } else {
        1 + first_non_html(offered.skip(1))
    }
}

/// The type negotiation selects, `None` when nothing usable is offered.
pub open spec fn negotiate_spec(offered: Seq<Seq<char>>, pref: MimePreference) -> Option<
    MimeChoiceModel,
> {
    match pref {
        MimePreference::Text => Some(MimeChoiceModel::DirectText),
        MimePreference::Image => if offered.len() == 0 {
            None
        } else if first_image(offered) < offered.len() {
            Some(MimeChoiceModel::Offered(offered[first_image(offered) as int]))
        } else {
            Some(MimeChoiceModel::Offered(offered[0]))
        },
        MimePreference::Any => if offered.len() == 0 {
            None
        } else if first_image(offered) < offered.len() {
            Some(MimeChoiceModel::Offered(offered[first_image(offered) as int]))
        } else if offered[0] == "text/html"@ {
            if first_non_html(offered) < offered.len() {
                Some(MimeChoiceModel::Offered(offered[first_non_html(offered) as int]))
            } else {
                Some(MimeChoiceModel::Offered("text/html"@))
            }
        } else {
            Some(MimeChoiceModel::Offered(offered[0]))
        },
    }
}

proof fn lemma_first_image(offered: Seq<Seq<char>>, k: int)
    requires
        0 <= k <= offered.len(),
        forall|i: int| 0 <= i < k ==> !is_image_type(#[trigger] offered[i]),
        k < offered.len() ==> is_image_type(offered[k]),
    ensures
        first_image(offered) == k,
    decreases k,
{
    if k > 0 {
        lemma_first_image(offered.skip(1), k - 1);
        assert(forall|i: int| 0 <= i < k - 1 ==> offered.skip(1)[i] == offered[i + 1]);
    }
}

proof fn lemma_first_non_html(offered: Seq<Seq<char>>, k: int)
    requires
        0 <= k <= offered.len(),
        forall|i: int| 0 <= i < k ==> (#[trigger] offered[i]) == "text/html"@,
        k < offered.len() ==> offered[k] != "text/html"@,
    ensures
        first_non_html(offered) == k,
    decreases k,
{
    if k > 0 {
        lemma_first_non_html(offered.skip(1), k - 1);
        assert(forall|i: int| 0 <= i < k - 1 ==> offered.skip(1)[i] == offered[i + 1]);
    }
}

fn find_first_image(offered: &Vec<String>) -> (r: Option<usize>)
    ensures
        r matches Some(i) ==> i < offered@.len() && i == first_image(offered.deep_view()),
        r is None ==> first_image(offered.deep_view()) == offered@.len(),
{
    let ghost o = offered.deep_view();
    let mut i: usize = 0;
    while i < offered.len()
        invariant
            0 <= i <= o.len() == offered@.len(),
            offered.deep_view() == o,
            forall|k: int| 0 <= k < i ==> !is_image_type(#[trigger] o[k]),
        decreases o.len() - i,
    {
        if string_starts_with(offered[i].as_str(), "image/") {
            proof {
                assert(is_image_type(o[i as int]));
                lemma_first_image(o, i as int);
            }
            return Some(i);
        }
        i = i + 1;
    }
    proof {
        lemma_first_image(o, o.len() as int);
    }
    None
}

fn find_first_non_html(offered: &Vec<String>) -> (r: Option<usize>)
    ensures
        r matches Some(i) ==> i < offered@.len() && i == first_non_html(offered.deep_view()),
        r is None ==> first_non_html(offered.deep_view()) == offered@.len(),
{
    let ghost o = offered.deep_view();
    let html: String = "text/html".to_owned();
    let mut i: usize = 0;
    while i < offered.len()
        invariant
            0 <= i <= o.len() == offered@.len(),
            offered.deep_view() == o,
            html@ == "text/html"@,
            forall|k: int| 0 <= k < i ==> (#[trigger] o[k]) == "text/html"@,
        decreases o.len() - i,
    {
        if !(offered[i] == html) {
            proof {
                assert(o[i as int] != "text/html"@);
                lemma_first_non_html(o, i as int);
            }
            return Some(i);
        }
        i = i + 1;
    }
    proof {
        lemma_first_non_html(o, o.len() as int);
    }
    None
}

/// Negotiate which offered type to read, under the given preference.
pub fn negotiate_mime(offered: &Vec<String>, pref: MimePreference) -> (r: Option<MimeChoice>)
    ensures
        r.deep_view() == negotiate_spec(offered.deep_view(), pref),
{
    let ghost o = offered.deep_view();
    match pref {
        MimePreference::Text => Some(MimeChoice::DirectText),
        MimePreference::Image => {
            if offered.len() == 0 {
                return None;
            }
            match find_first_image(offered) {
                Some(i) => Some(MimeChoice::Offered(offered[i].clone())),
                None => Some(MimeChoice::Offered(offered[0].clone())),
            }
        },
        MimePreference::Any => {
            if offered.len() == 0 {
                return None;
            }
            match find_first_image(offered) {
                Some(i) => Some(MimeChoice::Offered(offered[i].clone())),
                None => {
                    let html: String = "text/html".to_owned();
                    if offered[0] == html {
                        match find_first_non_html(offered) {
                            Some(i) => Some(MimeChoice::Offered(offered[i].clone())),
                            None => Some(MimeChoice::Offered(html)),
                        }
                    } else {
                        proof {
                            assert(o[0] != "text/html"@);
                        }
                        Some(MimeChoice::Offered(offered[0].clone()))
                    }
                },
            }
        },
    }
}

} // verus!
