//! Plain-value models of what the storage backend hands back, and the
//! logic that accumulates a paginated listing across pages.

use std::collections::HashMap;

use vstd::prelude::*;

use crate::file::ObjectRecord;
use crate::text::{strip_trailing, strip_trailing_char};

verus! {

/// One page of a paginated listing response.
#[derive(Debug)]
pub struct ListingPage {
    pub contents: Option<Vec<ObjectRecord>>,
    pub prefix: Option<String>,
    pub common_prefixes: Option<Vec<String>>,
    pub next_continuation_token: Option<String>,
}

/// What one object fetch reports, besides its body.
#[derive(Debug)]
pub struct GetResponse {
    pub content_type: Option<String>,
    pub content_length: Option<i64>,
    pub e_tag: Option<String>,
    pub last_modified: Option<String>,
    pub metadata: Option<HashMap<String, String>>,
}

/// What to do once a page has been taken in: ask for the next page with
/// the continuation token the backend returned, or stop.
#[derive(Debug, PartialEq)]
pub enum ListAction {
    Continue(String),
    Done,
}

/// A listing being accumulated page by page: the records and common
/// prefixes seen so far, and the base prefix echoed by the first page,
/// its trailing separator stripped.
#[derive(Debug)]
pub struct Listing {
    pub objects: Vec<ObjectRecord>,
    pub common_prefixes: Vec<String>,
    pub base_prefix: Option<String>,
}

impl Listing {
    /// An empty accumulator, ready for the first page.
    pub fn new() -> (l: Listing)
        ensures
            l.objects@.len() == 0,
            l.common_prefixes@.len() == 0,
            l.base_prefix is None,
    {
        Listing { objects: Vec::new(), common_prefixes: Vec::new(), base_prefix: None }
    }

    /// Take in one page: extend the records and common prefixes in order,
    /// capture the base prefix from the first page that echoes one, and
    /// say whether the loop must go on with the returned token.
    pub fn apply_page(&mut self, page: ListingPage) -> (a: ListAction)
        ensures
            final(self).objects.deep_view() == old(self).objects.deep_view() + (match page
                .contents {
                Some(c) => c.deep_view(),
                None => Seq::empty(),
            }),
            final(self).common_prefixes.deep_view() == old(self).common_prefixes.deep_view() + (
            match page.common_prefixes {
                Some(p) => p.deep_view(),
                None => Seq::empty(),
            }),
            final(self).base_prefix.deep_view() == (if old(self).base_prefix is Some {
                old(self).base_prefix.deep_view()
            } else {
                match page.prefix {
                    Some(p) => Some(strip_trailing(p@, '/')),
                    None => None,
                }
            }),
            match a {
                ListAction::Continue(tok) => page.next_continuation_token matches Some(t) && tok@
                    == t@,
                ListAction::Done => page.next_continuation_token is None,
            },
    {
        let ListingPage { contents, prefix, common_prefixes, next_continuation_token } = page;
        let ghost old_objects = self.objects.deep_view();
        match contents {
            Some(mut c) => {
                let ghost c_dv = c.deep_view();
                self.objects.append(&mut c);
                proof {
                    assert(self.objects.deep_view() =~= old_objects + c_dv);
                }
            },
            None => {
                proof {
                    assert(self.objects.deep_view() =~= old_objects + Seq::<
                        crate::file::RecordView,
                    >::empty());
                }
            },
        }
        let ghost old_prefixes = self.common_prefixes.deep_view();
        match common_prefixes {
            Some(mut p) => {
                let ghost p_dv = p.deep_view();
                self.common_prefixes.append(&mut p);
                proof {
                    assert(self.common_prefixes.deep_view() =~= old_prefixes + p_dv);
                }
            },
            None => {
                proof {
                    assert(self.common_prefixes.deep_view() =~= old_prefixes + Seq::<
                        Seq<char>,
                    >::empty());
                }
            },
        }
        if self.base_prefix.is_none() {
            match prefix {
                Some(p) => {
                    let stripped = strip_trailing_char(p.as_str(), '/');
                    self.base_prefix = Some(stripped.to_owned());
                },
                None => {},
            }
        }
        match next_continuation_token {
            Some(t) => ListAction::Continue(t),
            None => ListAction::Done,
        }
    }
}

} // verus!
