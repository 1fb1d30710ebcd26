//! An ordered listing of directory entries for one selector, built
//! either from a stored map file or from a directory scan, filtered by a
//! query, and rendered back to the wire.
use crate::directoryentry::{
    entry_matches, parse_line_spec, scan_type, serialize_spec, ChildInfo, DirectoryEntry,
    EntryFields,
};
use crate::gophertype::GopherType;
use crate::query::{eval_postfix, Query, TokenModel};
use crate::text::{field_ok, find_ch, find_char_from, str_to_chars, subvec};
use vstd::prelude::*;

verus! {

#[derive(Debug)]
pub struct Gophermap {
    pub entries: Vec<DirectoryEntry>,
}

/// The lines of a stored map text: split on `'\n'`, with no trailing
/// empty line when the text ends in a terminator.
pub open spec fn split_nl(s: Seq<char>) -> Seq<Seq<char>>
    decreases s.len(),
{
    if s.len() == 0 {
        Seq::empty()
    } else {
        let i = find_ch(s, '\n');
        if i < 0 || i >= s.len() {
            seq![s]
        } else {
            seq![s.subrange(0, i)] + split_nl(s.subrange(i + 1, s.len() as int))
        }
    }
}

/// The entries a stored map yields: each line parsed in order, lines
/// that fail to parse skipped.
pub open spec fn stored_entries(lines: Seq<Seq<char>>) -> Seq<EntryFields>
    decreases lines.len(),
{
    if lines.len() == 0 {
        Seq::empty()
    } else {
        let rest = stored_entries(lines.drop_first());
        match parse_line_spec(lines.first()) {
            Ok(t) => seq![t] + rest,
            Err(_) => rest,
        }
    }
}

/// How many lines of a stored map fail to parse and are skipped.
pub open spec fn skipped_count(lines: Seq<Seq<char>>) -> nat
    decreases lines.len(),
{
    if lines.len() == 0 {
        0
    } else {
        let rest = skipped_count(lines.drop_first());
        match parse_line_spec(lines.first()) {
            Ok(_) => rest,
            Err(_) => rest + 1,
        }
    }
}

/// The entries carry exactly the given parsed fields, in the same order.
pub open spec fn entries_match(es: Seq<DirectoryEntry>, ts: Seq<EntryFields>) -> bool {
    &&& es.len() == ts.len()
    &&& forall|i: int| 0 <= i < es.len() ==> entry_matches(#[trigger] es[i], ts[i])
}

/// Every line of a stored map is either kept or counted as skipped:
/// entries plus skipped lines account for all lines.
pub proof fn lemma_stored_totals(lines: Seq<Seq<char>>)
    ensures
        stored_entries(lines).len() + skipped_count(lines) == lines.len(),
    decreases lines.len(),
{
    if lines.len() == 0 {
    } else {
        lemma_stored_totals(lines.drop_first());
    }
}

/// A stored map whose lines all parse yields one entry per line, in
/// order, and skips nothing.
pub proof fn lemma_stored_all_ok(lines: Seq<Seq<char>>)
    requires
        forall|i: int| 0 <= i < lines.len() ==> parse_line_spec(#[trigger] lines[i]) is Ok,
    ensures
        stored_entries(lines).len() == lines.len(),
        skipped_count(lines) == 0,
        forall|i: int|
            0 <= i < lines.len() ==> stored_entries(lines)[i] == parse_line_spec(
                #[trigger] lines[i],
            )->Ok_0,
    decreases lines.len(),
{
    if lines.len() == 0 {
    } else {
        assert(parse_line_spec(lines[0]) is Ok);
        assert forall|i: int| 0 <= i < lines.drop_first().len() implies parse_line_spec(
            #[trigger] lines.drop_first()[i],
        ) is Ok by {
            assert(lines.drop_first()[i] == lines[i + 1]);
        }
        lemma_stored_all_ok(lines.drop_first());
        assert forall|i: int| 0 <= i < lines.len() implies stored_entries(lines)[i]
            == parse_line_spec(#[trigger] lines[i])->Ok_0 by {
            if i > 0 {
                assert(lines.drop_first()[i - 1] == lines[i]);
                assert(stored_entries(lines)[i] == stored_entries(lines.drop_first())[i - 1]);
            }
        }
    }
}

/// Partial-failure tolerance of a stored map: one malformed line among
/// otherwise valid lines costs exactly that line; every valid line is
/// kept, in its original relative order.
pub proof fn lemma_stored_one_bad_line(lines: Seq<Seq<char>>, b: int)
    requires
        0 <= b < lines.len(),
        parse_line_spec(lines[b]) is Err,
        forall|i: int|
            0 <= i < lines.len() && i != b ==> parse_line_spec(#[trigger] lines[i]) is Ok,
    ensures
        stored_entries(lines).len() == lines.len() - 1,
        skipped_count(lines) == 1,
        forall|i: int|
            0 <= i < b ==> stored_entries(lines)[i] == parse_line_spec(
                #[trigger] lines[i],
            )->Ok_0,
        forall|i: int|
            b < i < lines.len() ==> stored_entries(lines)[i - 1] == parse_line_spec(
                #[trigger] lines[i],
            )->Ok_0,
    decreases lines.len(),
{
    let rest = lines.drop_first();
    if b == 0 {
        assert forall|i: int| 0 <= i < rest.len() implies parse_line_spec(
            #[trigger] rest[i],
        ) is Ok by {
            assert(rest[i] == lines[i + 1]);
        }
        lemma_stored_all_ok(rest);
        assert forall|i: int| 0 < i < lines.len() implies stored_entries(lines)[i - 1]
            == parse_line_spec(#[trigger] lines[i])->Ok_0 by {
            assert(rest[i - 1] == lines[i]);
            assert(stored_entries(lines) == stored_entries(rest));
        }
    } else {
        assert(parse_line_spec(lines[0]) is Ok);
        assert(rest[b - 1] == lines[b]);
        assert forall|i: int| 0 <= i < rest.len() && i != b - 1 implies parse_line_spec(
            #[trigger] rest[i],
        ) is Ok by {
            assert(rest[i] == lines[i + 1]);
        }
        lemma_stored_one_bad_line(rest, b - 1);
        let t0 = parse_line_spec(lines[0])->Ok_0;
        assert(stored_entries(lines) =~= seq![t0] + stored_entries(rest));
        assert forall|i: int| 0 <= i < b implies stored_entries(lines)[i] == parse_line_spec(
            #[trigger] lines[i],
        )->Ok_0 by {
            if i > 0 {
                assert(rest[i - 1] == lines[i]);
                assert(stored_entries(lines)[i] == stored_entries(rest)[i - 1]);
            }
        }
        assert forall|i: int| b < i < lines.len() implies stored_entries(lines)[i - 1]
            == parse_line_spec(#[trigger] lines[i])->Ok_0 by {
            assert(rest[i - 1] == lines[i]);
            assert(stored_entries(lines)[i - 1] == stored_entries(rest)[i - 2]);
        }
    }
}

/// A scanned child is listed when its fields can stand on the wire and
/// it is something the scan serves: a directory or a regular file, not a
/// special file or a child whose metadata could not be read.
pub open spec fn scan_keep(c: ChildInfo, host: Seq<char>) -> bool {
    &&& field_ok(c.name@)
    &&& field_ok(c.selector@)
    &&& field_ok(host)
    &&& scan_type(c.kind, c.extension@) != GopherType::Error
}

/// The fields of the entries a directory scan yields, in scan order.
pub open spec fn scan_fields(cs: Seq<ChildInfo>, host: Seq<char>, port: u16) -> Seq<EntryFields>
    decreases cs.len(),
{
    if cs.len() == 0 {
        Seq::empty()
    } else {
        let c = cs.first();
        let rest = scan_fields(cs.drop_first(), host, port);
        if scan_keep(c, host) {
            seq![(scan_type(c.kind, c.extension@), c.name@, c.selector@, host, port)] + rest
        } else {
            rest
        }
    }
}

/// The predicate a query applies to an entry: its description matches.
pub open spec fn query_keeps(q: Seq<TokenModel>, e: DirectoryEntry) -> bool {
    eval_postfix(q, e.description@) == Option::Some(true)
}

/// The wire rendering of a listing: the serialized lines of its entries,
/// in order.
pub open spec fn render_spec(es: Seq<DirectoryEntry>) -> Seq<char>
    decreases es.len(),
{
    if es.len() == 0 {
        Seq::empty()
    } else {
        serialize_spec(es.first()) + render_spec(es.drop_first())
    }
}

impl Gophermap {
    /// An empty listing.
    pub fn new() -> (r: Gophermap)
        ensures
            r.entries@ == Seq::<DirectoryEntry>::empty(),
    {
        Gophermap { entries: Vec::new() }
    }

    /// Reads a stored map: one record per line, in order; a line that
    /// fails to parse is skipped, never fatal, and the count of skipped
    /// lines is reported beside the listing.
    pub fn from_string(input: &str) -> (r: (Gophermap, usize))
        ensures
            entries_match(r.0.entries@, stored_entries(split_nl(input@))),
            forall|i: int| 0 <= i < r.0.entries@.len() ==> (#[trigger] r.0.entries@[i]).wf(),
            r.1 == skipped_count(split_nl(input@)),
    {
        let v = str_to_chars(input);
        let ghost s = input@;
        let n = v.len();
        let mut entries: Vec<DirectoryEntry> = Vec::new();
        let mut skipped: usize = 0;
        let mut p: usize = 0;
        let ghost mut acc: Seq<EntryFields> = Seq::empty();
        proof {
            assert(s.subrange(0, n as int) =~= s);
            assert(stored_entries(split_nl(s)) =~= acc + stored_entries(
                split_nl(s.subrange(0, n as int)),
            ));
        }
        while p < n
            invariant
                n == v@.len(),
                v@ == s,
                p <= n,
                skipped <= p,
                entries_match(entries@, acc),
                forall|i: int| 0 <= i < entries@.len() ==> (#[trigger] entries@[i]).wf(),
                stored_entries(split_nl(s)) =~= acc + stored_entries(
                    split_nl(s.subrange(p as int, n as int)),
                ),
                skipped_count(split_nl(s)) == skipped + skipped_count(
                    split_nl(s.subrange(p as int, n as int)),
                ),
            decreases n - p,
        {
            let ghost rem = s.subrange(p as int, n as int);
            let (wend, next) = match find_char_from(&v, p, '\n') {
                Some(i) => {
                    proof {
                        assert(rem[i - p] == s[i as int]);
                        assert forall|j: int| 0 <= j < i - p implies rem[j] != '\n' by {
                            assert(rem[j] == s[j + p]);
                        }
                        crate::text::lemma_find_ch_at(rem, '\n', i - p);
                    }
                    (i, i + 1)
                },
                None => {
                    proof {
                        assert forall|j: int| 0 <= j < rem.len() implies rem[j] != '\n' by {
                            assert(rem[j] == s[j + p]);
                        }
                        crate::text::lemma_find_ch_absent(rem, '\n');
                    }
                    (n, n)
                },
            };
            let ghost line = s.subrange(p as int, wend as int);
            let ghost rem2 = s.subrange(next as int, n as int);
            let ghost lines = split_nl(rem);
            proof {
                if wend < n {
                    assert(line =~= rem.subrange(0, wend - p));
                    assert(rem2 =~= rem.subrange(wend - p + 1, rem.len() as int));
                    assert(lines =~= seq![line] + split_nl(rem2));
                } else {
                    assert(line =~= rem);
                    assert(rem2 =~= Seq::<char>::empty());
                    assert(lines =~= seq![line] + split_nl(rem2));
                }
                assert((seq![line] + split_nl(rem2)).first() == line);
                assert((seq![line] + split_nl(rem2)).drop_first() =~= split_nl(rem2));
            }
            let seg = subvec(&v, p, wend);
            match crate::directoryentry::parse_chars(&seg) {
                Ok(e) => {
                    let ghost t = parse_line_spec(line)->Ok_0;
                    let ghost entries0 = entries@;
                    entries.push(e);
                    proof {
                        acc = acc + seq![t];
                        assert(stored_entries(lines) =~= seq![t] + stored_entries(split_nl(rem2)));
                        assert(entries@ =~= entries0.push(e));
                        assert forall|i: int| 0 <= i < entries@.len() implies entry_matches(
                            #[trigger] entries@[i],
                            acc[i],
                        ) by {
                            if i < entries0.len() {
                                assert(entries@[i] == entries0[i]);
                            }
                        }
                        assert(stored_entries(split_nl(s)) =~= acc + stored_entries(
                            split_nl(rem2),
                        ));
                    }
                },
                Err(_) => {
                    skipped = skipped + 1;
                    proof {
                        assert(stored_entries(lines) =~= stored_entries(split_nl(rem2)));
                        assert(skipped_count(lines) == 1 + skipped_count(split_nl(rem2)));
                    }
                },
            }
            p = next;
        }
        proof {
            assert(s.subrange(p as int, n as int) =~= Seq::<char>::empty());
        }
        (Gophermap { entries }, skipped)
    }

    /// Builds the listing of a directory scan: one entry per child, in
    /// scan order; children that are neither directories nor regular
    /// files — special files, or children whose metadata could not be
    /// read — are skipped without failing the scan, as are children
    /// whose names cannot stand on the wire.
    pub fn from_directory(children: &Vec<ChildInfo>, host: &str, port: u16) -> (r: Gophermap)
        ensures
            entries_match(r.entries@, scan_fields(children@, host@, port)),
            forall|i: int| 0 <= i < r.entries@.len() ==> (#[trigger] r.entries@[i]).wf(),
    {
        let n = children.len();
        let mut entries: Vec<DirectoryEntry> = Vec::new();
        let mut i: usize = 0;
        let ghost mut acc: Seq<EntryFields> = Seq::empty();
        proof {
            assert(children@.subrange(0, n as int) =~= children@);
            assert(scan_fields(children@, host@, port) =~= acc + scan_fields(
                children@.subrange(0, n as int),
                host@,
                port,
            ));
        }
        while i < n
            invariant
                n == children@.len(),
                i <= n,
                entries_match(entries@, acc),
                forall|j: int| 0 <= j < entries@.len() ==> (#[trigger] entries@[j]).wf(),
                scan_fields(children@, host@, port) =~= acc + scan_fields(
                    children@.subrange(i as int, n as int),
                    host@,
                    port,
                ),
            decreases n - i,
        {
            let ghost cs = children@.subrange(i as int, n as int);
            proof {
                assert(cs.first() == children@[i as int]);
                assert(cs.drop_first() =~= children@.subrange(i + 1, n as int));
            }
            match DirectoryEntry::from_dir_entry(&children[i], host, port) {
                Ok(e) => {
                    let keep = !matches!(e.gtype, GopherType::Error);
                    if keep {
                        let ghost entries0 = entries@;
                        let ghost t = (
                            scan_type(children@[i as int].kind, children@[i as int].extension@),
                            children@[i as int].name@,
                            children@[i as int].selector@,
                            host@,
                            port,
                        );
                        entries.push(e);
                        proof {
                            acc = acc + seq![t];
                            assert(scan_keep(children@[i as int], host@));
                            assert(scan_fields(cs, host@, port) =~= seq![t] + scan_fields(
                                cs.drop_first(),
                                host@,
                                port,
                            ));
                            assert(entries@ =~= entries0.push(e));
                            assert forall|j: int| 0 <= j < entries@.len() implies entry_matches(
                                #[trigger] entries@[j],
                                acc[j],
                            ) by {
                                if j < entries0.len() {
                                    assert(entries@[j] == entries0[j]);
                                }
                            }
                            assert(scan_fields(children@, host@, port) =~= acc + scan_fields(
                                cs.drop_first(),
                                host@,
                                port,
                            ));
                        }
                    } else {
                        proof {
                            assert(!scan_keep(children@[i as int], host@));
                            assert(scan_fields(cs, host@, port) =~= scan_fields(
                                cs.drop_first(),
                                host@,
                                port,
                            ));
                        }
                    }
                },
                Err(_) => {
                    proof {
                        assert(!scan_keep(children@[i as int], host@));
                        assert(scan_fields(cs, host@, port) =~= scan_fields(
                            cs.drop_first(),
                            host@,
                            port,
                        ));
                    }
                },
            }
            i = i + 1;
        }
        proof {
            assert(children@.subrange(n as int, n as int) =~= Seq::<ChildInfo>::empty());
        }
        Gophermap { entries }
    }

    /// The entries whose descriptions match the query, in their original
    /// order.
    pub fn filtered(&self, q: &Query) -> (r: Gophermap)
        ensures
            r.entries@ == self.entries@.filter(
                (|e: DirectoryEntry| query_keeps(q@, e)),
            ),
    {
        let ghost pred = (|e: DirectoryEntry| query_keeps(q@, e));
        let n = self.entries.len();
        let mut kept: Vec<DirectoryEntry> = Vec::new();
        let mut i: usize = 0;
        proof {
            reveal(Seq::filter);
            assert(kept@ =~= self.entries@.subrange(0, 0).filter(pred));
        }
        while i < n
            invariant
                n == self.entries@.len(),
                i <= n,
                kept@ == self.entries@.subrange(0, i as int).filter(
                    (|e: DirectoryEntry| query_keeps(q@, e)),
                ),
            decreases n - i,
        {
            let ghost pred = (|e: DirectoryEntry| query_keeps(q@, e));
            let ghost pre = self.entries@.subrange(0, i as int);
            let e = clone_entry(&self.entries[i]);
            let keep = q.matches(e.description.as_str());
            proof {
                reveal(Seq::filter);
                assert(self.entries@.subrange(0, i + 1).drop_last() =~= pre);
                assert(self.entries@.subrange(0, i + 1).last() == self.entries@[i as int]);
                assert(pred(self.entries@[i as int]) == keep);
            }
            if keep {
                kept.push(e);
                proof {
                    assert(kept@ =~= pre.filter(pred).push(self.entries@[i as int]));
                }
            }
            i = i + 1;
        }
        proof {
            assert(self.entries@.subrange(0, n as int) =~= self.entries@);
        }
        Gophermap { entries: kept }
    }

    /// The full wire rendering of the listing: every entry's line, in
    /// order.
    pub fn serialize(&self) -> (r: String)
        ensures
            r@ == render_spec(self.entries@),
    {
        let n = self.entries.len();
        let mut out = String::new();
        let mut i: usize = 0;
        proof {
            assert(out@ =~= Seq::<char>::empty());
            assert(self.entries@.subrange(0, n as int) =~= self.entries@);
            assert(render_spec(self.entries@) =~= out@ + render_spec(
                self.entries@.subrange(0, n as int),
            ));
        }
        while i < n
            invariant
                n == self.entries@.len(),
                i <= n,
                render_spec(self.entries@) =~= out@ + render_spec(
                    self.entries@.subrange(i as int, n as int),
                ),
            decreases n - i,
        {
            let ghost suf = self.entries@.subrange(i as int, n as int);
            proof {
                assert(suf.first() == self.entries@[i as int]);
                assert(suf.drop_first() =~= self.entries@.subrange(i + 1, n as int));
            }
            let line = self.entries[i].serialize();
            out.append(line.as_str());
            i = i + 1;
        }
        proof {
            assert(self.entries@.subrange(n as int, n as int) =~= Seq::<DirectoryEntry>::empty());
        }
        out
    }
}

/// A copy of an entry that Verus knows to carry the same fields.
pub fn clone_entry(e: &DirectoryEntry) -> (r: DirectoryEntry)
    ensures
        r == *e,
{
    DirectoryEntry {
        gtype: e.gtype,
        description: e.description.clone(),
        selector: e.selector.clone(),
        host: e.host.clone(),
        port: e.port,
    }
}

} // verus!
