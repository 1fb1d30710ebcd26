//! The atomic record of a listing: one directory entry, with its wire
//! codec. A wire line is
//! `<type-code><description>\t<selector>\t<host>\t<port>\r\n`; parsing
//! accepts a line with or without its terminator, splits the remainder on
//! tabs, and reads the final field as a decimal port.
use crate::errors::GopherError;
use crate::gophertype::{ext_type, type_of_code, wire_code, GopherType};
use crate::text::{
    all_digits, chars_to_string, dec_rep, dec_val, field_ok, find_ch, find_char_from,
    lemma_dec_rep_digits, lemma_dec_rep_val, lemma_find_ch_absent, lemma_find_ch_at,
    lemma_find_ch_seam, parse_port, push_dec, str_to_chars, strip_eol, subvec,
};
use vstd::prelude::*;

verus! {

/// The parsed fields of a wire line: classifier, description, selector,
/// host, port.
pub type EntryFields = (GopherType, Seq<char>, Seq<char>, Seq<char>, u16);

#[derive(Debug, Clone, PartialEq)]
pub struct DirectoryEntry {
    pub gtype: GopherType,
    pub description: String,
    pub selector: String,
    pub host: String,
    pub port: u16,
}

/// What a directory-scan child looks like to the engine: its name, the
/// selector it will be served under, what kind of object it is, and its
/// file extension (empty when it has none).
#[derive(Debug, Clone)]
pub struct ChildInfo {
    pub name: String,
    pub selector: String,
    pub kind: ChildKind,
    pub extension: String,
}

/// Classification of a filesystem child as handed in by the scanner.
/// `Other` covers symlinks, special files and children whose metadata
/// could not be read.
#[derive(Debug, Clone, Copy, PartialEq, Eq, Structural)]
pub enum ChildKind {
    Directory,
    Regular,
    Other,
}

/// The classifier a scanned child is listed under: directories are
/// `Directory`, regular files go by their extension, everything else is
/// `Error` (and is skipped by the scan).
pub open spec fn scan_type(k: ChildKind, ext: Seq<char>) -> GopherType {
    match k {
        ChildKind::Directory => GopherType::Directory,
        ChildKind::Regular => ext_type(ext),
        ChildKind::Other => GopherType::Error,
    }
}

/// The canonical wire line of an entry, terminator included.
pub open spec fn serialize_spec(e: DirectoryEntry) -> Seq<char> {
    seq![wire_code(e.gtype)] + e.description@ + seq!['\t'] + e.selector@ + seq!['\t'] + e.host@
        + seq!['\t'] + dec_rep(e.port as nat) + seq!['\r', '\n']
}

/// What parsing a wire line yields: the line is stripped of its
/// terminator; the first character is the type code (unknown codes
/// degrade to `Error` rather than failing); the remainder must hold at
/// least three tabs, splitting it into description, selector, host and a
/// trailing port field; fields must be free of stray CR/LF; the port
/// field must be a non-empty digit string worth at most 65535.
pub open spec fn parse_line_spec(s: Seq<char>) -> Result<EntryFields, GopherError> {
    let b = strip_eol(s);
    if b.len() == 0 {
        Err(GopherError::MalformedEntry)
    } else {
        let code = b[0];
        let rest = b.subrange(1, b.len() as int);
        let t1 = find_ch(rest, '\t');
        if t1 < 0 {
            Err(GopherError::MalformedEntry)
        } else {
            let desc = rest.subrange(0, t1);
            let r2 = rest.subrange(t1 + 1, rest.len() as int);
            let t2 = find_ch(r2, '\t');
            if t2 < 0 {
                Err(GopherError::MalformedEntry)
            } else {
                let sel = r2.subrange(0, t2);
                let r3 = r2.subrange(t2 + 1, r2.len() as int);
                let t3 = find_ch(r3, '\t');
                if t3 < 0 {
                    Err(GopherError::MalformedEntry)
                } else {
                    let host = r3.subrange(0, t3);
                    let ports = r3.subrange(t3 + 1, r3.len() as int);
                    if !(field_ok(desc) && field_ok(sel) && field_ok(host)) {
                        Err(GopherError::MalformedEntry)
                    } else if ports.len() == 0 || !all_digits(ports) || dec_val(ports) > 65535 {
                        Err(GopherError::InvalidPort)
                    } else {
                        Ok((type_of_code(code), desc, sel, host, dec_val(ports) as u16))
                    }
                }
            }
        }
    }
}

/// The entry carries exactly the given parsed fields.
pub open spec fn entry_matches(e: DirectoryEntry, t: EntryFields) -> bool {
    &&& e.gtype == t.0
    &&& e.description@ == t.1
    &&& e.selector@ == t.2
    &&& e.host@ == t.3
    &&& e.port == t.4
}

impl DirectoryEntry {
    /// No tab, CR or LF may be embedded in a field, or the serialized
    /// line would fall apart.
    pub open spec fn wf(&self) -> bool {
        &&& field_ok(self.description@)
        &&& field_ok(self.selector@)
        &&& field_ok(self.host@)
    }

    /// An empty `Error`-typed placeholder entry.
    pub fn new() -> (r: DirectoryEntry)
        ensures
            r.gtype == GopherType::Error,
            r.description@ == Seq::<char>::empty(),
            r.selector@ == Seq::<char>::empty(),
            r.host@ == Seq::<char>::empty(),
            r.port == 0,
            r.wf(),
    {
        DirectoryEntry {
            gtype: GopherType::Error,
            description: String::new(),
            selector: String::new(),
            host: String::new(),
            port: 0,
        }
    }

    /// Whether every field is free of embedded delimiters.
    pub fn is_wf(&self) -> (b: bool)
        ensures
            b == self.wf(),
    {
        str_clean(self.description.as_str()) && str_clean(self.selector.as_str()) && str_clean(
            self.host.as_str(),
        )
    }

    /// The canonical wire line of this entry, `"\r\n"` included.
    pub fn serialize(&self) -> (r: String)
        ensures
            r@ == serialize_spec(*self),
    {
        let mut v: Vec<char> = Vec::new();
        v.push(wire_code_char(&self.gtype));
        let mut d = str_to_chars(self.description.as_str());
        v.append(&mut d);
        v.push('\t');
        let mut sl = str_to_chars(self.selector.as_str());
        v.append(&mut sl);
        v.push('\t');
        let mut h = str_to_chars(self.host.as_str());
        v.append(&mut h);
        v.push('\t');
        push_dec(self.port, &mut v);
        v.push('\r');
        v.push('\n');
        proof {
            assert(v@ =~= serialize_spec(*self));
        }
        chars_to_string(&v)
    }

    /// Parses one wire record line, exactly as `parse_line_spec` reads
    /// it.
    pub fn from_string(st: &str) -> (r: Result<DirectoryEntry, GopherError>)
        ensures
            match (r, parse_line_spec(st@)) {
                (Ok(e), Ok(t)) => entry_matches(e, t) && e.wf(),
                (Err(a), Err(b)) => a == b,
                _ => false,
            },
    {
        let v = str_to_chars(st);
        parse_chars(&v)
    }

    /// Builds the listing entry of one scanned child. Fails when the
    /// name, the selector or the host carries an embedded delimiter: such
    /// a child cannot be represented on the wire.
    pub fn from_dir_entry(child: &ChildInfo, host: &str, port: u16) -> (r: Result<
        DirectoryEntry,
        GopherError,
    >)
        ensures
            r is Ok <==> field_ok(child.name@) && field_ok(child.selector@) && field_ok(host@),
            match r {
                Ok(e) => {
                    &&& e.gtype == scan_type(child.kind, child.extension@)
                    &&& e.description@ == child.name@
                    &&& e.selector@ == child.selector@
                    &&& e.host@ == host@
                    &&& e.port == port
                    &&& e.wf()
                },
                Err(er) => er == GopherError::MalformedEntry,
            },
    {
        if !(str_clean(child.name.as_str()) && str_clean(child.selector.as_str()) && str_clean(
            host,
        )) {
            return Err(GopherError::MalformedEntry);
        }
        let gtype = match child.kind {
            ChildKind::Directory => GopherType::Directory,
            ChildKind::Regular => GopherType::from_file_extension(child.extension.as_str()),
            ChildKind::Other => GopherType::Error,
        };
        Ok(
            DirectoryEntry {
                gtype,
                description: child.name.clone(),
                selector: child.selector.clone(),
                host: String::from_str(host),
                port,
            },
        )
    }
}

impl Default for DirectoryEntry {
    /// Same placeholder as `new`: an empty `Error`-typed entry.
    fn default() -> (r: DirectoryEntry)
        ensures
            r.gtype == GopherType::Error,
            r.description@ == Seq::<char>::empty(),
            r.selector@ == Seq::<char>::empty(),
            r.host@ == Seq::<char>::empty(),
            r.port == 0,
            r.wf(),
    {
        DirectoryEntry::new()
    }
}

/// Whether a string is free of embedded tab, CR and LF.
pub fn str_clean(s: &str) -> (b: bool)
    ensures
        b == field_ok(s@),
{
    let n = s.unicode_len();
    let mut i: usize = 0;
    while i < n
        invariant
            n == s@.len(),
            i <= n,
            forall|j: int| 0 <= j < i ==> s@[j] != '\t' && s@[j] != '\r' && s@[j] != '\n',
        decreases n - i,
    {
        let c = s.get_char(i);
        if c == '\t' || c == '\r' || c == '\n' {
            return false;
        }
        i = i + 1;
    }
    true
}

/// The wire-code character of a classifier.
pub fn wire_code_char(t: &GopherType) -> (c: char)
    ensures
        c == wire_code(*t),
{
    match *t {
        GopherType::Informational => 'i',
        GopherType::Gif => 'g',
        GopherType::Directory => '1',
        GopherType::File => '0',
        GopherType::BinaryFile => '9',
        GopherType::Error => '3',
    }
}

/// Whether `v[a..b]` is free of embedded tab, CR and LF.
fn range_clean(v: &Vec<char>, a: usize, b: usize) -> (r: bool)
    requires
        a <= b <= v@.len(),
    ensures
        r == field_ok(v@.subrange(a as int, b as int)),
{
    let ghost seg = v@.subrange(a as int, b as int);
    let mut i: usize = a;
    while i < b
        invariant
            a <= i <= b <= v@.len(),
            seg == v@.subrange(a as int, b as int),
            forall|j: int| 0 <= j < i - a ==> seg[j] != '\t' && seg[j] != '\r' && seg[j] != '\n',
        decreases b - i,
    {
        let c = v[i];
        assert(seg[i - a] == v@[i as int]);
        if c == '\t' || c == '\r' || c == '\n' {
            return false;
        }
        i = i + 1;
    }
    true
}

/// Parses one record line given as a character vector.
#[verifier::rlimit(100)]
pub(crate) fn parse_chars(v: &Vec<char>) -> (r: Result<DirectoryEntry, GopherError>)
    ensures
        match (r, parse_line_spec(v@)) {
            (Ok(e), Ok(t)) => entry_matches(e, t) && e.wf(),
            (Err(a), Err(b)) => a == b,
            _ => false,
        },
{
    let ghost s = v@;
    let mut m = v.len();
    if m >= 1 && v[m - 1] == '\n' {
        m = m - 1;
    }
    if m >= 1 && v[m - 1] == '\r' {
        m = m - 1;
    }
    let w = subvec(v, 0, m);
    proof {
        assert(w@ =~= strip_eol(s));
    }
    let ghost b = strip_eol(s);
    if w.len() == 0 {
        return Err(GopherError::MalformedEntry);
    }
    let code = w[0];
    let ghost ln = b.len() as int;
    let ghost rest = b.subrange(1, ln);
    let o1 = find_char_from(&w, 1, '\t');
    if o1.is_none() {
        proof {
            assert forall|j: int| 0 <= j < rest.len() implies rest[j] != '\t' by {
                assert(rest[j] == b[j + 1]);
            }
            lemma_find_ch_absent(rest, '\t');
        }
        return Err(GopherError::MalformedEntry);
    }
    let t1 = o1.unwrap();
    proof {
        assert(rest[t1 - 1] == b[t1 as int]);
        assert forall|j: int| 0 <= j < t1 - 1 implies rest[j] != '\t' by {
            assert(rest[j] == b[j + 1]);
        }
        lemma_find_ch_at(rest, '\t', t1 - 1);
    }
    let ghost desc = rest.subrange(0, t1 - 1);
    let ghost r2 = rest.subrange(t1 as int, rest.len() as int);
    proof {
        assert(r2 =~= b.subrange(t1 + 1, ln));
    }
    let o2 = find_char_from(&w, t1 + 1, '\t');
    if o2.is_none() {
        proof {
            assert forall|j: int| 0 <= j < r2.len() implies r2[j] != '\t' by {
                assert(r2[j] == b[j + t1 + 1]);
            }
            lemma_find_ch_absent(r2, '\t');
        }
        return Err(GopherError::MalformedEntry);
    }
    let t2 = o2.unwrap();
    proof {
        assert(r2[t2 - t1 - 1] == b[t2 as int]);
        assert forall|j: int| 0 <= j < t2 - t1 - 1 implies r2[j] != '\t' by {
            assert(r2[j] == b[j + t1 + 1]);
        }
        lemma_find_ch_at(r2, '\t', t2 - t1 - 1);
    }
    let ghost sel = r2.subrange(0, t2 - t1 - 1);
    let ghost r3 = r2.subrange(t2 - t1, r2.len() as int);
    proof {
        assert(r3 =~= b.subrange(t2 + 1, ln));
    }
    let o3 = find_char_from(&w, t2 + 1, '\t');
    if o3.is_none() {
        proof {
            assert forall|j: int| 0 <= j < r3.len() implies r3[j] != '\t' by {
                assert(r3[j] == b[j + t2 + 1]);
            }
            lemma_find_ch_absent(r3, '\t');
        }
        return Err(GopherError::MalformedEntry);
    }
    let t3 = o3.unwrap();
    proof {
        assert(r3[t3 - t2 - 1] == b[t3 as int]);
        assert forall|j: int| 0 <= j < t3 - t2 - 1 implies r3[j] != '\t' by {
            assert(r3[j] == b[j + t2 + 1]);
        }
        lemma_find_ch_at(r3, '\t', t3 - t2 - 1);
    }
    let ghost hostg = r3.subrange(0, t3 - t2 - 1);
    let ghost ports = r3.subrange(t3 - t2, r3.len() as int);
    proof {
        assert(desc =~= w@.subrange(1, t1 as int));
        assert(sel =~= w@.subrange(t1 + 1, t2 as int));
        assert(hostg =~= w@.subrange(t2 + 1, t3 as int));
        assert(ports =~= w@.subrange(t3 + 1, m as int));
    }
    if !(range_clean(&w, 1, t1) && range_clean(&w, t1 + 1, t2) && range_clean(&w, t2 + 1, t3)) {
        return Err(GopherError::MalformedEntry);
    }
    let op = parse_port(&w, t3 + 1);
    if op.is_none() {
        return Err(GopherError::InvalidPort);
    }
    let port = op.unwrap();
    let gtype = GopherType::from_code_char(code);
    let e = DirectoryEntry {
        gtype,
        description: chars_to_string(&subvec(&w, 1, t1)),
        selector: chars_to_string(&subvec(&w, t1 + 1, t2)),
        host: chars_to_string(&subvec(&w, t2 + 1, t3)),
        port,
    };
    Ok(e)
}

/// Parsing inverts serialization: the wire line of any well-formed entry
/// reads back as exactly that entry's fields.
pub proof fn lemma_round_trip(e: DirectoryEntry)
    requires
        e.wf(),
    ensures
        parse_line_spec(serialize_spec(e)) == Ok::<EntryFields, GopherError>(
            (e.gtype, e.description@, e.selector@, e.host@, e.port),
        ),
{
    crate::gophertype::lemma_wire_code_round_trip(e.gtype);
    lemma_dec_rep_digits(e.port as nat);
    lemma_dec_rep_val(e.port as nat);
    let digits = dec_rep(e.port as nat);
    let u = seq![wire_code(e.gtype)] + e.description@ + seq!['\t'] + e.selector@ + seq!['\t']
        + e.host@ + seq!['\t'] + digits;
    let s = serialize_spec(e);
    assert(s =~= u + seq!['\r', '\n']);
    assert(s[s.len() - 1] == '\n');
    assert(s.drop_last() =~= u + seq!['\r']);
    assert((u + seq!['\r']).drop_last() =~= u);
    let b = strip_eol(s);
    assert(b == u);
    assert(b[0] == wire_code(e.gtype));
    let rest = b.subrange(1, b.len() as int);
    assert(rest =~= e.description@ + (seq!['\t'] + e.selector@ + seq!['\t'] + e.host@ + seq!['\t']
        + digits));
    lemma_find_ch_seam(
        e.description@,
        seq!['\t'] + e.selector@ + seq!['\t'] + e.host@ + seq!['\t'] + digits,
        '\t',
    );
    let t1 = find_ch(rest, '\t');
    assert(t1 == e.description@.len());
    assert(rest.subrange(0, t1) =~= e.description@);
    let r2 = rest.subrange(t1 + 1, rest.len() as int);
    assert(r2 =~= e.selector@ + (seq!['\t'] + e.host@ + seq!['\t'] + digits));
    lemma_find_ch_seam(e.selector@, seq!['\t'] + e.host@ + seq!['\t'] + digits, '\t');
    let t2 = find_ch(r2, '\t');
    assert(t2 == e.selector@.len());
    assert(r2.subrange(0, t2) =~= e.selector@);
    let r3 = r2.subrange(t2 + 1, r2.len() as int);
    assert(r3 =~= e.host@ + (seq!['\t'] + digits));
    lemma_find_ch_seam(e.host@, seq!['\t'] + digits, '\t');
    let t3 = find_ch(r3, '\t');
    assert(t3 == e.host@.len());
    assert(r3.subrange(0, t3) =~= e.host@);
    assert(r3.subrange(t3 + 1, r3.len() as int) =~= digits);
    assert(dec_val(digits) == e.port);
}

} // verus!
