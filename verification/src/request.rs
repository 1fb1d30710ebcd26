//! The per-connection request resolver: reads the single request line,
//! splits it into selector and optional query, guards the selector
//! against escaping the content root, and compiles the query. A query
//! that fails to parse degrades to "no filter" rather than denying the
//! listing; a selector that escapes the root is rejected outright.
use crate::directoryentry::DirectoryEntry;
use crate::errors::{err_text, lemma_err_text_clean, GopherError};
use crate::gophertype::GopherType;
use crate::query::{postfix_valid, to_postfix_spec, tokens_of, Query};
use crate::text::{chars_to_string, find_ch, find_char_from, str_to_chars, strip_eol, subvec};
use vstd::prelude::*;

verus! {

/// A parsed request: list a directory, or list it filtered by a search
/// expression.
#[derive(Debug)]
pub enum GopherMessage {
    ListDir(String),
    SearchDir(String, String),
}

/// What the request line denotes: the canonical empty line asks for the
/// root selector `/`; otherwise the line, stripped of its terminator,
/// must be non-empty and splits at its first tab into selector and
/// query.
pub open spec fn req_result(s: Seq<char>) -> Result<(Seq<char>, Option<Seq<char>>), GopherError> {
    if s == seq!['\r', '\n'] {
        Ok((seq!['/'], Option::None))
    } else {
        let t = strip_eol(s);
        if t.len() == 0 {
            Err(GopherError::InvalidRequest)
        } else {
            let i = find_ch(t, '\t');
            if i < 0 {
                Ok((t, Option::None))
            } else {
                Ok((t.subrange(0, i), Option::Some(t.subrange(i + 1, t.len() as int))))
            }
        }
    }
}

/// Splits a selector into its `'/'`-separated segments, empty segments
/// kept.
pub open spec fn path_segments(s: Seq<char>) -> Seq<Seq<char>>
    decreases s.len(),
{
    let i = find_ch(s, '/');
    if i < 0 || i >= s.len() {
        seq![s]
    } else {
        seq![s.subrange(0, i)] + path_segments(s.subrange(i + 1, s.len() as int))
    }
}

/// A selector escapes the content root when any of its segments is the
/// parent-directory reference `..`.
pub open spec fn selector_escapes(s: Seq<char>) -> bool {
    exists|k: int| 0 <= k < path_segments(s).len() && #[trigger] path_segments(s)[k] == seq!['.', '.']
}

/// Parses the request line into a message.
pub fn parse_input(input: &str) -> (r: Result<GopherMessage, GopherError>)
    ensures
        match (r, req_result(input@)) {
            (Ok(GopherMessage::ListDir(sel)), Ok(t)) => sel@ == t.0 && t.1 is None,
            (Ok(GopherMessage::SearchDir(sel, q)), Ok(t)) => sel@ == t.0 && t.1 == Option::Some(
                q@,
            ),
            (Err(a), Err(b)) => a == b,
            _ => false,
        },
{
    let ghost s = input@;
    let v = str_to_chars(input);
    let n = v.len();
    let is_root = n == 2 && v[0] == '\r' && v[1] == '\n';
    proof {
        if is_root {
            assert(s =~= seq!['\r', '\n']);
        } else {
            if s == seq!['\r', '\n'] {
                assert(s.len() == 2 && s[0] == '\r' && s[1] == '\n');
            }
        }
    }
    if is_root {
        let sel = String::from_str("/");
        proof {
            reveal_strlit("/");
            assert(sel@ =~= seq!['/']);
        }
        return Ok(GopherMessage::ListDir(sel));
    }
    let mut m = n;
    if m >= 1 && v[m - 1] == '\n' {
        m = m - 1;
    }
    if m >= 1 && v[m - 1] == '\r' {
        m = m - 1;
    }
    let w = subvec(&v, 0, m);
    proof {
        assert(w@ =~= strip_eol(s));
    }
    if w.len() == 0 {
        return Err(GopherError::InvalidRequest);
    }
    let ghost t = strip_eol(s);
    match find_char_from(&w, 0, '\t') {
        None => {
            proof {
                crate::text::lemma_find_ch_absent(t, '\t');
            }
            Ok(GopherMessage::ListDir(chars_to_string(&w)))
        },
        Some(i) => {
            proof {
                crate::text::lemma_find_ch_at(t, '\t', i as int);
            }
            let sel = chars_to_string(&subvec(&w, 0, i));
            let q = chars_to_string(&subvec(&w, i + 1, w.len()));
            Ok(GopherMessage::SearchDir(sel, q))
        },
    }
}

/// Guards a selector against escaping the content root: rejected with
/// `PathEscape` exactly when one of its `/`-separated segments is `..`.
pub fn check_selector(selector: &str) -> (r: Result<(), GopherError>)
    ensures
        r is Ok <==> !selector_escapes(selector@),
        r matches Err(e) ==> e == GopherError::PathEscape,
{
    let v = str_to_chars(selector);
    let n = v.len();
    let mut p: usize = 0;
    let ghost mut segs: Seq<Seq<char>> = Seq::empty();
    proof {
        assert(selector@.subrange(0, n as int) =~= selector@);
        assert(path_segments(selector@) =~= segs + path_segments(selector@.subrange(0, n as int)));
    }
    while p < n
        invariant
            n == v@.len(),
            v@ == selector@,
            p <= n,
            path_segments(selector@) =~= segs + path_segments(selector@.subrange(p as int, n as int)),
            forall|k: int| 0 <= k < segs.len() ==> #[trigger] segs[k] != seq!['.', '.'],
        decreases n - p,
    {
        let ghost rem = selector@.subrange(p as int, n as int);
        let (wend, next, last) = match find_char_from(&v, p, '/') {
            Some(i) => {
                proof {
                    assert(rem[i - p] == selector@[i as int]);
                    assert forall|j: int| 0 <= j < i - p implies rem[j] != '/' by {
                        assert(rem[j] == selector@[j + p]);
                    }
                    crate::text::lemma_find_ch_at(rem, '/', i - p);
                }
                (i, i + 1, false)
            },
            None => {
                proof {
                    assert forall|j: int| 0 <= j < rem.len() implies rem[j] != '/' by {
                        assert(rem[j] == selector@[j + p]);
                    }
                    crate::text::lemma_find_ch_absent(rem, '/');
                }
                (n, n, true)
            },
        };
        let ghost seg = selector@.subrange(p as int, wend as int);
        proof {
            if !last {
                assert(seg =~= rem.subrange(0, wend - p));
                assert(rem.subrange(wend - p + 1, rem.len() as int) =~= selector@.subrange(
                    next as int,
                    n as int,
                ));
                assert(path_segments(rem) =~= seq![seg] + path_segments(
                    selector@.subrange(next as int, n as int),
                ));
            } else {
                assert(seg =~= rem);
                assert(path_segments(rem) =~= seq![seg]);
            }
        }
        let dotdot = wend - p == 2 && v[p] == '.' && v[p + 1] == '.';
        proof {
            assert(seg.len() == wend - p);
            assert(seq!['.', '.'].len() == 2);
            assert(seq!['.', '.'][0] == '.' && seq!['.', '.'][1] == '.');
            if wend - p == 2 {
                assert(seg[0] == selector@[p as int]);
                assert(seg[1] == selector@[p + 1]);
            }
            if dotdot {
                assert(seg =~= seq!['.', '.']);
                assert(path_segments(selector@)[segs.len() as int] == seg);
                assert(selector_escapes(selector@)) by {
                    assert(0 <= segs.len() < path_segments(selector@).len());
                    assert(path_segments(selector@)[segs.len() as int] == seq!['.', '.']);
                }
            } else {
                assert(seg != seq!['.', '.']);
            }
        }
        if dotdot {
            proof {
                assert(selector_escapes(selector@));
            }
            return Err(GopherError::PathEscape);
        }
        if last {
            proof {
                let segs2 = segs + seq![seg];
                assert(path_segments(selector@) =~= segs2);
                assert forall|k: int|
                    0 <= k < path_segments(selector@).len() implies #[trigger] path_segments(selector@)[k]
                    != seq!['.', '.'] by {
                    assert(path_segments(selector@)[k] == segs2[k]);
                    if k < segs.len() {
                        assert(segs2[k] == segs[k]);
                    } else {
                        assert(segs2[k] == seg);
                    }
                }
                assert(!selector_escapes(selector@));
            }
            return Ok(());
        }
        proof {
            segs = segs + seq![seg];
            assert(path_segments(selector@) =~= segs + path_segments(selector@.subrange(next as int, n as int)));
        }
        p = next;
    }
    proof {
        let rem = selector@.subrange(p as int, n as int);
        assert(rem =~= Seq::<char>::empty());
        crate::text::lemma_find_ch_absent(rem, '/');
        assert(path_segments(rem) =~= seq![rem]);
        let segs2 = segs + seq![rem];
        assert(path_segments(selector@) =~= segs2);
        assert(rem != seq!['.', '.']) by {
            assert(seq!['.', '.'].len() == 2);
        }
        assert forall|k: int|
            0 <= k < path_segments(selector@).len() implies #[trigger] path_segments(selector@)[k] != seq![
            '.',
            '.',
        ] by {
            assert(path_segments(selector@)[k] == segs2[k]);
            if k < segs.len() {
                assert(segs2[k] == segs[k]);
            } else {
                assert(segs2[k] == rem);
            }
        }
    }
    Ok(())
}

/// The resolution plan of one request: which selector to list, and the
/// compiled filter, if any survives.
#[derive(Debug)]
pub struct RequestPlan {
    pub selector: String,
    pub query: Option<Query>,
}

/// Turns the request line into a resolution plan: parse the line, reject
/// a selector that escapes the root, and compile the query segment; a
/// query that fails to compile degrades to an unfiltered listing.
pub fn plan_request(input: &str) -> (r: Result<RequestPlan, GopherError>)
    ensures
        match req_result(input@) {
            Err(e) => r == Err::<RequestPlan, GopherError>(e),
            Ok(t) => {
                if selector_escapes(t.0) {
                    r == Err::<RequestPlan, GopherError>(GopherError::PathEscape)
                } else {
                    match r {
                        Ok(plan) => {
                            &&& plan.selector@ == t.0
                            &&& match (plan.query, t.1) {
                                (Option::Some(q), Option::Some(qs)) => q@ == to_postfix_spec(
                                    tokens_of(qs),
                                ) && postfix_valid(to_postfix_spec(tokens_of(qs))),
                                (Option::None, Option::Some(qs)) => !postfix_valid(
                                    to_postfix_spec(tokens_of(qs)),
                                ),
                                (Option::None, Option::None) => true,
                                (Option::Some(_), Option::None) => false,
                            }
                        },
                        Err(_) => false,
                    }
                }
            },
        },
{
    let msg = match parse_input(input) {
        Ok(m) => m,
        Err(e) => {
            return Err(e);
        },
    };
    match msg {
        GopherMessage::ListDir(sel) => {
            if let Err(e) = check_selector(sel.as_str()) {
                return Err(e);
            }
            Ok(RequestPlan { selector: sel, query: Option::None })
        },
        GopherMessage::SearchDir(sel, qtext) => {
            if let Err(e) = check_selector(sel.as_str()) {
                return Err(e);
            }
            match Query::parse(qtext.as_str()) {
                Ok(q) => Ok(RequestPlan { selector: sel, query: Option::Some(q) }),
                Err(_) => Ok(RequestPlan { selector: sel, query: Option::None }),
            }
        },
    }
}

/// The single `Error`-typed listing line that reports a failed
/// resolution to the client.
pub fn error_entry(err: &GopherError) -> (r: DirectoryEntry)
    ensures
        r.gtype == GopherType::Error,
        r.description@ == err_text(*err),
        r.selector@ == Seq::<char>::empty(),
        r.host@ == Seq::<char>::empty(),
        r.port == 0,
        r.wf(),
{
    proof {
        lemma_err_text_clean(*err);
    }
    DirectoryEntry {
        gtype: GopherType::Error,
        description: err.message(),
        selector: String::new(),
        host: String::new(),
        port: 0,
    }
}

} // verus!
