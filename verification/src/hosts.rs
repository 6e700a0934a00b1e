//! The hosts file (reading its entries and writing a new one) and the port
//! lookup over `netstat` output.
use vstd::prelude::*;
use crate::static_server::{lemma_tail_without_at, lemma_tail_without_le, tail_without};
use crate::text::{
    chars_of, is_ws, join, join_words, lemma_join_last, lemma_lines_step, lemma_trim_drop_ws_last,
    lemma_words_first, lemma_words_shape, lines,
    nl_pos, parse_unsigned, parse_unsigned_chars, push_all, push_str_chars, slice_chars,
    split_lines, split_words, string_from_chars, strip_cr, trim, trim_chars, trim_end,
    trim_start, words,
};

verus! {

broadcast use vstd::string::group_string_axioms;

/// One active mapping read from the hosts file.
#[derive(Clone, Debug)]
pub struct HostsEntry {
    pub ip: String,
    pub host: String,
    pub enabled: bool,
    pub original_line: String,
    pub line_number: usize,
}

/// One mapping to write to the hosts file.
#[derive(Clone, Debug)]
pub struct HostsEntryParams {
    pub ip: String,
    pub host: String,
    pub enabled: bool,
}

/// The mappings that make up a new hosts file.
#[derive(Clone, Debug)]
pub struct WriteHostsParams {
    pub entries: Vec<HostsEntryParams>,
}

/// A TCP endpoint found by the port lookup.
#[derive(Clone, Debug)]
pub struct PortMapping {
    pub protocol: String,
    pub local_addr: String,
    pub port: u16,
    pub pid: u32,
    pub process_name: String,
    pub state: String,
}

// ---------------------------------------------------------------------------
// Reading
// ---------------------------------------------------------------------------

/// The address and host names a line maps, if it is a mapping: after
/// trimming it is neither empty nor a `#` comment, and it has at least two
/// words; the host names are the words after the first, joined by spaces.
pub open spec fn line_mapping(line: Seq<char>) -> Option<(Seq<char>, Seq<char>)> {
    let t = trim(line);
    if t.len() == 0 || t[0] == '#' {
        None
    } else {
        let p = words(t);
        if p.len() >= 2 {
            Some((p[0], join(p.skip(1), seq![' '])))
        } else {
            None
        }
    }
}

/// The entries of a hosts file whose lines are `ls`: address, host names,
/// the line itself and its 1-based number.
pub open spec fn mappings_of(ls: Seq<Seq<char>>) -> Seq<(Seq<char>, Seq<char>, Seq<char>, nat)>
    decreases ls.len(),
{
    if ls.len() == 0 {
        seq![]
    } else {
        let prev = mappings_of(ls.drop_last());
        match line_mapping(ls.last()) {
            Some((ip, host)) => prev.push((ip, host, ls.last(), ls.len())),
            None => prev,
        }
    }
}

/// The entries of a hosts file with contents `content`.
pub open spec fn hosts_mappings(content: Seq<char>) -> Seq<(Seq<char>, Seq<char>, Seq<char>, nat)> {
    mappings_of(lines(content))
}

/// `HostsEntry` equals the spec tuple (enabled).
pub open spec fn entry_is(e: HostsEntry, m: (Seq<char>, Seq<char>, Seq<char>, nat)) -> bool {
    &&& e.ip@ == m.0
    &&& e.host@ == m.1
    &&& e.original_line@ == m.2
    &&& e.line_number == m.3
    &&& e.enabled
}

/// The mapping of one line.
fn parse_line(line: &[char]) -> (r: Option<(Vec<char>, Vec<char>)>)
    ensures
        match line_mapping(line@) {
            Some((ip, host)) => r matches Some((a, b)) && a@ == ip && b@ == host,
            None => r is None,
        },
{
    let t = trim_chars(line);
    if t.len() == 0 || t[0] == '#' {
        return None;
    }
    let parts = split_words(t.as_slice());
    if parts.len() < 2 {
        return None;
    }
    let ip = slice_chars(parts[0].as_slice(), 0, parts[0].len());
    let host = join_words(&parts, 1);
    proof {
        let p = words(t@);
        assert(ip@ =~= p[0]);
        assert(parts@.skip(1).map_values(|w: Vec<char>| w@) =~= p.skip(1));
    }
    Some((ip, host))
}

/// Reads the mappings of a hosts file: every line that, trimmed, is not
/// empty, not a comment and has at least two words (see `line_mapping`).
pub fn parse_hosts(content: &str) -> (r: Vec<HostsEntry>)
    ensures
        r@.len() == hosts_mappings(content@).len(),
        forall|i: int| 0 <= i < r@.len() ==> entry_is(#[trigger] r@[i], hosts_mappings(content@)[i]),
{
    let chars = chars_of(content);
    let ls = split_lines(chars.as_slice());
    let ghost lv = lines(content@);
    assert(ls@.map_values(|l: Vec<char>| l@) =~= lv);
    let mut out: Vec<HostsEntry> = Vec::new();
    let mut i: usize = 0;
    while i < ls.len()
        invariant
            i <= ls@.len(),
            ls@.len() == lv.len(),
            lv == lines(content@),
            forall|k: int| 0 <= k < ls@.len() ==> (#[trigger] ls@[k])@ == lv[k],
            out@.len() == mappings_of(lv.take(i as int)).len(),
            forall|k: int|
                0 <= k < out@.len() ==> entry_is(#[trigger] out@[k], mappings_of(lv.take(i as int))[k]),
        decreases ls@.len() - i,
    {
        let line = &ls[i];
        proof {
            assert(lv.take(i + 1).drop_last() =~= lv.take(i as int));
            assert(lv.take(i + 1).last() == line@);
        }
        match parse_line(line.as_slice()) {
            Some((ip, host)) => {
                let e = HostsEntry {
                    ip: string_from_chars(ip.as_slice()),
                    host: string_from_chars(host.as_slice()),
                    enabled: true,
                    original_line: string_from_chars(line.as_slice()),
                    line_number: i + 1,
                };
                out.push(e);
            },
            None => {},
        }
        i += 1;
    }
    assert(lv.take(ls@.len() as int) =~= lv);
    out
}

// ---------------------------------------------------------------------------
// Writing
// ---------------------------------------------------------------------------

/// Whether a line of the old file is kept: blank or a `#` comment.
pub open spec fn is_comment_line(line: Seq<char>) -> bool {
    let t = trim(line);
    t.len() == 0 || t[0] == '#'
}

/// The blank and comment lines among `ls`, in order.
pub open spec fn comment_lines(ls: Seq<Seq<char>>) -> Seq<Seq<char>>
    decreases ls.len(),
{
    if ls.len() == 0 {
        seq![]
    } else if is_comment_line(ls.last()) {
        comment_lines(ls.drop_last()).push(ls.last())
    } else {
        comment_lines(ls.drop_last())
    }
}

/// Each of `ls` followed by a line feed.
pub open spec fn terminated(ls: Seq<Seq<char>>) -> Seq<char>
    decreases ls.len(),
{
    if ls.len() == 0 {
        seq![]
    } else {
        terminated(ls.drop_last()) + ls.last() + seq!['\n']
    }
}

/// The line written for a mapping: `ip host`, commented out with `# ` when
/// the mapping is disabled.
pub open spec fn entry_line(e: HostsEntryParams) -> Seq<char> {
    if e.enabled {
        e.ip@ + seq![' '] + e.host@
    } else {
        "# "@ + e.ip@ + seq![' '] + e.host@
    }
}

/// The lines written for `es`.
pub open spec fn entry_lines(es: Seq<HostsEntryParams>) -> Seq<Seq<char>>
    decreases es.len(),
{
    if es.len() == 0 {
        seq![]
    } else {
        entry_lines(es.drop_last()).push(entry_line(es.last()))
    }
}

/// The new hosts file: the blank and comment lines of the old one, a blank
/// line after them if there were any, then one line per mapping.
pub open spec fn rendered_hosts(original: Seq<char>, es: Seq<HostsEntryParams>) -> Seq<char> {
    let cs = comment_lines(lines(original));
    let sep = if cs.len() > 0 {
        seq!['\n']
    } else {
        seq![]
    };
    terminated(cs) + sep + terminated(entry_lines(es))
}

/// Builds the contents of the new hosts file (see `rendered_hosts`).
pub fn render_hosts(original: &str, entries: &[HostsEntryParams]) -> (s: String)
    ensures
        s@ == rendered_hosts(original@, entries@),
{
    let chars = chars_of(original);
    let ls = split_lines(chars.as_slice());
    let ghost lv = lines(original@);
    let mut out: Vec<char> = Vec::new();
    let mut i: usize = 0;
    let ghost kept: Seq<Seq<char>> = seq![];
    while i < ls.len()
        invariant
            i <= ls@.len(),
            ls@.len() == lv.len(),
            forall|k: int| 0 <= k < ls@.len() ==> (#[trigger] ls@[k])@ == lv[k],
            kept == comment_lines(lv.take(i as int)),
            out@ == terminated(kept),
        decreases ls@.len() - i,
    {
        let line = &ls[i];
        let t = trim_chars(line.as_slice());
        proof {
            assert(lv.take(i + 1).drop_last() =~= lv.take(i as int));
            assert(lv.take(i + 1).last() == line@);
        }
        if t.len() == 0 || t[0] == '#' {
            push_all(&mut out, line.as_slice());
            out.push('\n');
            proof {
                let old_kept = kept;
                kept = kept.push(line@);
                assert(kept.drop_last() =~= old_kept);
            }
        }
        i += 1;
    }
    assert(lv.take(ls@.len() as int) =~= lv);
    let had_comments = out.len() > 0;
    proof {
        lemma_terminated_empty(kept);
    }
    if had_comments {
        out.push('\n');
    }
    let ghost head = out@;
    let mut j: usize = 0;
    let mut body: Vec<char> = Vec::new();
    while j < entries.len()
        invariant
            j <= entries@.len(),
            body@ == terminated(entry_lines(entries@.take(j as int))),
        decreases entries@.len() - j,
    {
        let e = &entries[j];
        let mut line: Vec<char> = Vec::new();
        if !e.enabled {
            push_str_chars(&mut line, "# ");
        }
        push_all(&mut line, chars_of(e.ip.as_str()).as_slice());
        line.push(' ');
        push_all(&mut line, chars_of(e.host.as_str()).as_slice());
        proof {
            if e.enabled {
                assert(line@ =~= entry_line(*e));
            } else {
                assert(line@ =~= entry_line(*e));
            }
            assert(entries@.take(j + 1).drop_last() =~= entries@.take(j as int));
            assert(entries@.take(j + 1).last() == *e);
        }
        push_all(&mut body, line.as_slice());
        body.push('\n');
        proof {
            let el = entry_lines(entries@.take(j + 1));
            assert(el == entry_lines(entries@.take(j as int)).push(line@));
            assert(el.drop_last() =~= entry_lines(entries@.take(j as int)));
            assert(el.last() == line@);
            assert(body@ =~= terminated(el));
        }
        j += 1;
    }
    assert(entries@.take(entries@.len() as int) =~= entries@);
    push_all(&mut out, body.as_slice());
    proof {
        let sep = if kept.len() > 0 {
            seq!['\n']
        } else {
            seq![]
        };
        assert(head =~= terminated(kept) + sep);
        assert(out@ =~= rendered_hosts(original@, entries@));
    }
    string_from_chars(out.as_slice())
}

proof fn lemma_terminated_empty(ls: Seq<Seq<char>>)
    ensures
        (terminated(ls).len() == 0) == (ls.len() == 0),
    decreases ls.len(),
{
    if ls.len() > 0 {
        lemma_terminated_empty(ls.drop_last());
    }
}

// ---------------------------------------------------------------------------
// Reading back what was written
// ---------------------------------------------------------------------------

/// `l` holds no line feed.
pub open spec fn no_newline(l: Seq<char>) -> bool {
    forall|j: int| 0 <= j < l.len() ==> l[j] != '\n'
}

/// The (address, host names) pairs of the mapping lines among `ls`.
pub open spec fn line_pairs(ls: Seq<Seq<char>>) -> Seq<(Seq<char>, Seq<char>)>
    decreases ls.len(),
{
    if ls.len() == 0 {
        seq![]
    } else {
        let p = line_pairs(ls.drop_last());
        match line_mapping(ls.last()) {
            Some(m) => p.push(m),
            None => p,
        }
    }
}

/// The (address, host names) pairs of the enabled entries of `es`.
pub open spec fn enabled_pairs(es: Seq<HostsEntryParams>) -> Seq<(Seq<char>, Seq<char>)>
    decreases es.len(),
{
    if es.len() == 0 {
        seq![]
    } else {
        let p = enabled_pairs(es.drop_last());
        if es.last().enabled {
            p.push((es.last().ip@, es.last().host@))
        } else {
            p
        }
    }
}

/// An entry whose line reads back as written: an enabled entry has a
/// one-word address not starting with `#` and host names that are their
/// words joined by single spaces; the line of a disabled entry, followed by
/// its line feed, reads as no mapping.
pub open spec fn writable_entry(e: HostsEntryParams) -> bool {
    if e.enabled {
        &&& e.ip@.len() > 0
        &&& e.ip@[0] != '#'
        &&& forall|j: int| 0 <= j < e.ip@.len() ==> !is_ws(#[trigger] e.ip@[j])
        &&& words(e.host@).len() > 0
        &&& join(words(e.host@), seq![' ']) == e.host@
    } else {
        line_pairs(lines(entry_line(e) + seq!['\n'])) == Seq::<(Seq<char>, Seq<char>)>::empty()
    }
}

proof fn lemma_lines_cons(l: Seq<char>, rest: Seq<char>)
    requires
        no_newline(l),
    ensures
        lines(l + seq!['\n'] + rest) == seq![strip_cr(l)] + lines(rest),
{
    let x = l + seq!['\n'] + rest;
    assert forall|j: int| 0 <= j < l.len() implies #[trigger] x[j] != '\n' by {
        assert(x[j] == l[j]);
    }
    assert(x[l.len() as int] == '\n');
    lemma_lines_step(x, l.len() as int);
    assert(x.take(l.len() as int) =~= l);
    assert(x.skip(l.len() as int + 1) =~= rest);
}

proof fn lemma_terminated_cons(ls: Seq<Seq<char>>)
    requires
        ls.len() > 0,
    ensures
        terminated(ls) == ls[0] + seq!['\n'] + terminated(ls.drop_first()),
    decreases ls.len(),
{
    if ls.len() == 1 {
        assert(ls.drop_last() =~= Seq::<Seq<char>>::empty());
        assert(ls.drop_first() =~= Seq::<Seq<char>>::empty());
        assert(terminated(ls.drop_last()) == Seq::<char>::empty());
        assert(ls.last() == ls[0]);
        assert(terminated(ls) =~= ls[0] + seq!['\n']);
        assert(ls[0] + seq!['\n'] + Seq::<char>::empty() =~= ls[0] + seq!['\n']);
    } else {
        let init = ls.drop_last();
        lemma_terminated_cons(init);
        assert(init.drop_first() =~= ls.drop_first().drop_last());
        assert(ls.drop_first().last() == ls.last());
        assert(init[0] == ls[0]);
        assert(terminated(ls) =~= ls[0] + seq!['\n'] + terminated(ls.drop_first()));
    }
}

proof fn lemma_lines_terminated(ls: Seq<Seq<char>>, rest: Seq<char>)
    requires
        forall|i: int| 0 <= i < ls.len() ==> no_newline(#[trigger] ls[i]),
    ensures
        lines(terminated(ls) + rest) == ls.map_values(|l: Seq<char>| strip_cr(l)) + lines(rest),
    decreases ls.len(),
{
    if ls.len() == 0 {
        assert(terminated(ls) + rest =~= rest);
        assert(ls.map_values(|l: Seq<char>| strip_cr(l)) + lines(rest) =~= lines(rest));
    } else {
        lemma_terminated_cons(ls);
        let tail = ls.drop_first();
        assert forall|i: int| 0 <= i < tail.len() implies no_newline(#[trigger] tail[i]) by {
            assert(tail[i] == ls[i + 1]);
        }
        lemma_lines_terminated(tail, rest);
        assert(terminated(ls) + rest =~= ls[0] + seq!['\n'] + (terminated(tail) + rest));
        lemma_lines_cons(ls[0], terminated(tail) + rest);
        assert(ls.map_values(|l: Seq<char>| strip_cr(l)) =~= seq![strip_cr(ls[0])] + tail.map_values(
            |l: Seq<char>| strip_cr(l),
        ));
    }
}

proof fn lemma_lines_no_newline(s: Seq<char>)
    ensures
        forall|i: int| 0 <= i < lines(s).len() ==> no_newline(#[trigger] lines(s)[i]),
    decreases s.len(),
{
    if s.len() > 0 {
        let k = nl_pos(s);
        crate::text::lemma_nl_pos(s);
        if k < s.len() {
            let rest = s.skip((k + 1) as int);
            lemma_lines_no_newline(rest);
            let first = strip_cr(s.take(k as int));
            assert(no_newline(first)) by {
                assert forall|j: int| 0 <= j < first.len() implies first[j] != '\n' by {
                    assert(first[j] == s[j]);
                }
            }
            assert forall|i: int| 0 <= i < lines(s).len() implies no_newline(#[trigger] lines(s)[i]) by {
                if i > 0 {
                    assert(lines(s)[i] == lines(rest)[i - 1]);
                }
            }
        }
    }
}

/// The mapping of a line does not change when a trailing carriage return
/// is dropped.
proof fn lemma_line_mapping_strip_cr(l: Seq<char>)
    ensures
        line_mapping(strip_cr(l)) == line_mapping(l),
{
    if l.len() > 0 && l.last() == '\r' {
        assert(is_ws('\r'));
        lemma_trim_drop_ws_last(l);
    }
}

proof fn lemma_line_pairs_concat(a: Seq<Seq<char>>, b: Seq<Seq<char>>)
    ensures
        line_pairs(a + b) == line_pairs(a) + line_pairs(b),
    decreases b.len(),
{
    if b.len() == 0 {
        assert(a + b =~= a);
        assert(line_pairs(a) + line_pairs(b) =~= line_pairs(a));
    } else {
        lemma_line_pairs_concat(a, b.drop_last());
        assert((a + b).drop_last() =~= a + b.drop_last());
        assert((a + b).last() == b.last());
        match line_mapping(b.last()) {
            Some(m) => {
                assert(line_pairs(a + b) =~= line_pairs(a) + line_pairs(b));
            },
            None => {},
        }
    }
}

proof fn lemma_line_pairs_strip_cr(ls: Seq<Seq<char>>)
    ensures
        line_pairs(ls.map_values(|l: Seq<char>| strip_cr(l))) == line_pairs(ls),
    decreases ls.len(),
{
    if ls.len() > 0 {
        let m = ls.map_values(|l: Seq<char>| strip_cr(l));
        lemma_line_pairs_strip_cr(ls.drop_last());
        assert(m.drop_last() =~= ls.drop_last().map_values(|l: Seq<char>| strip_cr(l)));
        lemma_line_mapping_strip_cr(ls.last());
    }
}

proof fn lemma_mapping_pairs(ls: Seq<Seq<char>>)
    ensures
        mappings_of(ls).map_values(|m: (Seq<char>, Seq<char>, Seq<char>, nat)| (m.0, m.1)) == line_pairs(ls),
    decreases ls.len(),
{
    if ls.len() > 0 {
        lemma_mapping_pairs(ls.drop_last());
        let prev = mappings_of(ls.drop_last());
        match line_mapping(ls.last()) {
            Some((ip, host)) => {
                assert(mappings_of(ls) == prev.push((ip, host, ls.last(), ls.len())));
                assert(mappings_of(ls).map_values(|m: (Seq<char>, Seq<char>, Seq<char>, nat)| (m.0, m.1))
                    =~= prev.map_values(|m: (Seq<char>, Seq<char>, Seq<char>, nat)| (m.0, m.1)).push((ip, host)));
            },
            None => {},
        }
    } else {
        assert(mappings_of(ls).map_values(|m: (Seq<char>, Seq<char>, Seq<char>, nat)| (m.0, m.1)) =~= seq![]);
    }
}

proof fn lemma_comment_lines(ls: Seq<Seq<char>>)
    requires
        forall|i: int| 0 <= i < ls.len() ==> no_newline(#[trigger] ls[i]),
    ensures
        forall|i: int|
            0 <= i < comment_lines(ls).len() ==> no_newline(#[trigger] comment_lines(ls)[i])
                && line_mapping(comment_lines(ls)[i]) is None,
        line_pairs(comment_lines(ls)) == Seq::<(Seq<char>, Seq<char>)>::empty(),
    decreases ls.len(),
{
    if ls.len() > 0 {
        let init = ls.drop_last();
        assert forall|i: int| 0 <= i < init.len() implies no_newline(#[trigger] init[i]) by {
            assert(init[i] == ls[i]);
        }
        lemma_comment_lines(init);
        if is_comment_line(ls.last()) {
            let c = comment_lines(ls);
            assert(c == comment_lines(init).push(ls.last()));
            assert(no_newline(ls[ls.len() - 1]));
            assert(c.drop_last() =~= comment_lines(init));
        }
    }
}

/// Text that ends in a line feed splits into its own lines, then those of
/// what follows.
proof fn lemma_lines_concat(x: Seq<char>, rest: Seq<char>)
    requires
        x.len() > 0,
        x.last() == '\n',
    ensures
        lines(x + rest) == lines(x) + lines(rest),
    decreases x.len(),
{
    crate::text::lemma_nl_pos(x);
    let k = nl_pos(x) as int;
    let y = x + rest;
    assert forall|j: int| 0 <= j < k implies #[trigger] y[j] != '\n' by {
        assert(y[j] == x[j]);
    }
    assert(y[k] == x[k]);
    lemma_lines_step(y, k);
    lemma_lines_step(x, k);
    assert(y.take(k) =~= x.take(k));
    let xs = x.skip(k + 1);
    assert(y.skip(k + 1) =~= xs + rest);
    if xs.len() == 0 {
        assert(xs + rest =~= rest);
        assert(lines(xs) == Seq::<Seq<char>>::empty());
        assert(lines(x) =~= seq![strip_cr(x.take(k))]);
    } else {
        assert(xs.last() == x.last());
        lemma_lines_concat(xs, rest);
    }
    assert(lines(y) =~= lines(x) + lines(rest));
}

proof fn lemma_enabled_entry(e: HostsEntryParams)
    requires
        writable_entry(e),
        e.enabled,
    ensures
        lines(entry_line(e) + seq!['\n']) == seq![entry_line(e)],
        line_mapping(entry_line(e)) == Some((e.ip@, e.host@)),
{
    let l = entry_line(e);
    let ip = e.ip@;
    let host = e.host@;
    lemma_words_shape(host);
    let hw = words(host);
    lemma_join_last(hw, seq![' ']);
    assert(host.len() > 0);
    assert(host.last() == hw.last().last());
    assert(!is_ws(hw.last().last())) by {
        assert(hw.last() == hw[hw.len() - 1]);
        assert(hw[hw.len() - 1][hw[hw.len() - 1].len() - 1] == hw.last().last());
    }
    assert(l == ip + seq![' '] + host);
    assert(l[0] == ip[0]);
    assert(trim_start(l) == l);
    assert(l.last() == host.last());
    assert(trim_end(l) == l);
    assert(is_ws(' '));
    lemma_words_first(ip, ' ', host);
    let p = words(l);
    assert(p == seq![ip] + hw);
    assert(p.skip(1) =~= hw);
    assert(no_newline(l)) by {
        assert forall|j: int| 0 <= j < l.len() implies l[j] != '\n' by {
            assert(is_ws('\n'));
            if j < ip.len() {
                assert(l[j] == ip[j]);
            } else if j > ip.len() {
                let q = j - ip.len() - 1;
                assert(l[j] == host[q]);
                lemma_join_chars(hw, q);
            }
        }
    }
    lemma_lines_cons(l, Seq::<char>::empty());
    assert(l + seq!['\n'] + Seq::<char>::empty() =~= l + seq!['\n']);
    assert(lines(Seq::<char>::empty()) == Seq::<Seq<char>>::empty());
    assert(l.last() != '\r');
    assert(seq![strip_cr(l)] + Seq::<Seq<char>>::empty() =~= seq![l]);
}

/// Every character of words joined by spaces is a space or a character of a word.
proof fn lemma_join_chars(ws: Seq<Seq<char>>, q: int)
    requires
        forall|i: int|
            0 <= i < ws.len() ==> forall|j: int| 0 <= j < (#[trigger] ws[i]).len() ==> !is_ws(#[trigger] ws[i][j]),
        0 <= q < join(ws, seq![' ']).len(),
    ensures
        join(ws, seq![' '])[q] == ' ' || !is_ws(join(ws, seq![' '])[q]),
    decreases ws.len(),
{
    if ws.len() == 1 {
        assert(join(ws, seq![' ']) == ws[0]);
    } else if ws.len() > 1 {
        let init = ws.drop_last();
        let a = join(init, seq![' ']);
        assert(join(ws, seq![' ']) == a + seq![' '] + ws.last());
        if q < a.len() {
            assert forall|i: int| 0 <= i < init.len() implies forall|j: int|
                0 <= j < (#[trigger] init[i]).len() ==> !is_ws(#[trigger] init[i][j]) by {
                assert(init[i] == ws[i]);
            }
            lemma_join_chars(init, q);
        } else if q > a.len() {
            assert(ws.last() == ws[ws.len() - 1]);
            assert(join(ws, seq![' '])[q] == ws.last()[q - a.len() - 1]);
        }
    }
}

proof fn lemma_entry_text(es: Seq<HostsEntryParams>)
    requires
        forall|i: int| 0 <= i < es.len() ==> writable_entry(#[trigger] es[i]),
    ensures
        line_pairs(lines(terminated(entry_lines(es)))) == enabled_pairs(es),
        (terminated(entry_lines(es)).len() == 0) == (es.len() == 0),
        es.len() > 0 ==> terminated(entry_lines(es)).last() == '\n',
    decreases es.len(),
{
    if es.len() == 0 {
        assert(lines(Seq::<char>::empty()) == Seq::<Seq<char>>::empty());
        assert(line_pairs(Seq::<Seq<char>>::empty()) == Seq::<(Seq<char>, Seq<char>)>::empty());
    } else {
        let init = es.drop_last();
        assert forall|i: int| 0 <= i < init.len() implies writable_entry(#[trigger] init[i]) by {
            assert(init[i] == es[i]);
        }
        lemma_entry_text(init);
        let e = es.last();
        assert(writable_entry(es[es.len() - 1]));
        let el = entry_lines(es);
        assert(el == entry_lines(init).push(entry_line(e)));
        assert(el.drop_last() =~= entry_lines(init));
        let t0 = terminated(entry_lines(init));
        let piece = entry_line(e) + seq!['\n'];
        assert(terminated(el) =~= t0 + piece);
        if init.len() == 0 {
            assert(t0 + piece =~= piece);
            assert(line_pairs(lines(t0)) == Seq::<(Seq<char>, Seq<char>)>::empty());
        } else {
            lemma_lines_concat(t0, piece);
        }
        assert(lines(terminated(el)) == lines(t0) + lines(piece)) by {
            if init.len() == 0 {
                assert(lines(t0) == Seq::<Seq<char>>::empty());
                assert(lines(t0) + lines(piece) =~= lines(piece));
            }
        }
        lemma_line_pairs_concat(lines(t0), lines(piece));
        if e.enabled {
            lemma_enabled_entry(e);
            assert(line_pairs(seq![entry_line(e)]) =~= seq![(e.ip@, e.host@)]) by {
                assert(seq![entry_line(e)].drop_last() =~= Seq::<Seq<char>>::empty());
                assert(line_pairs(Seq::<Seq<char>>::empty()) == Seq::<(Seq<char>, Seq<char>)>::empty());
            }
            assert(enabled_pairs(es) == enabled_pairs(init).push((e.ip@, e.host@)));
            assert(line_pairs(lines(terminated(el))) =~= enabled_pairs(es));
        } else {
            assert(enabled_pairs(es) == enabled_pairs(init));
            assert(line_pairs(lines(terminated(el))) =~= enabled_pairs(es));
        }
        assert(terminated(el).last() == '\n');
    }
}

/// Reading a hosts file that was just written gives back the addresses and
/// host names of the enabled entries, in order, whatever the old file held,
/// provided each entry's line reads back as written (see `writable_entry`).
pub proof fn law_hosts_write_then_read(original: Seq<char>, es: Seq<HostsEntryParams>)
    requires
        forall|i: int| 0 <= i < es.len() ==> writable_entry(#[trigger] es[i]),
    ensures
        hosts_mappings(rendered_hosts(original, es)).map_values(
            |m: (Seq<char>, Seq<char>, Seq<char>, nat)| (m.0, m.1),
        ) == enabled_pairs(es),
{
    let ls = lines(original);
    lemma_lines_no_newline(original);
    lemma_comment_lines(ls);
    let cs = comment_lines(ls);
    lemma_entry_text(es);
    let el = entry_lines(es);
    let te = terminated(el);
    let sep = if cs.len() > 0 {
        seq!['\n']
    } else {
        seq![]
    };
    let r = rendered_hosts(original, es);
    assert(r == terminated(cs) + sep + te);
    assert(r =~= terminated(cs) + (sep + te));
    lemma_lines_terminated(cs, sep + te);
    let csc = cs.map_values(|l: Seq<char>| strip_cr(l));
    lemma_line_pairs_strip_cr(cs);
    let mid = if cs.len() > 0 {
        seq![Seq::<char>::empty()]
    } else {
        Seq::<Seq<char>>::empty()
    };
    if cs.len() > 0 {
        assert(no_newline(Seq::<char>::empty()));
        lemma_lines_cons(Seq::<char>::empty(), te);
        assert(Seq::<char>::empty() + seq!['\n'] + te =~= sep + te);
        assert(strip_cr(Seq::<char>::empty()) == Seq::<char>::empty());
        assert(line_pairs(mid) == Seq::<(Seq<char>, Seq<char>)>::empty()) by {
            assert(mid.drop_last() =~= Seq::<Seq<char>>::empty());
            assert(mid.last() == Seq::<char>::empty());
            assert(trim_start(Seq::<char>::empty()) == Seq::<char>::empty());
            assert(trim_end(Seq::<char>::empty()) == Seq::<char>::empty());
            assert(line_mapping(mid.last()) is None);
            assert(line_pairs(Seq::<Seq<char>>::empty()) == Seq::<(Seq<char>, Seq<char>)>::empty());
            assert(line_pairs(mid.drop_last()) == Seq::<(Seq<char>, Seq<char>)>::empty());
        }
    } else {
        assert(sep + te =~= te);
        assert(line_pairs(mid) == Seq::<(Seq<char>, Seq<char>)>::empty());
    }
    assert(lines(sep + te) =~= mid + lines(te));
    assert(lines(r) =~= csc + (mid + lines(te)));
    lemma_line_pairs_concat(csc, mid + lines(te));
    lemma_line_pairs_concat(mid, lines(te));
    lemma_mapping_pairs(lines(r));
    assert(line_pairs(csc) =~= Seq::<(Seq<char>, Seq<char>)>::empty());
    assert(line_pairs(lines(r)) =~= enabled_pairs(es));
}

// ---------------------------------------------------------------------------
// Port lookup
// ---------------------------------------------------------------------------

/// A listing row of `netstat -ano -p TCP` for `port`: at least five words,
/// the second (`address:port`) ending in `:port`, and a process id as the
/// last word.  Yields the address, the port, the process id and the state
/// (the fourth word).
pub open spec fn netstat_row(line: Seq<char>, port: u16) -> Option<(Seq<char>, nat, nat, Seq<char>)> {
    let parts = words(line);
    if parts.len() < 5 {
        None
    } else {
        let addr = parts[1];
        let n = tail_without(addr, ':');
        if n >= addr.len() {
            None
        } else {
            match parse_unsigned(addr.skip(addr.len() - n), u16::MAX as nat) {
                None => None,
                Some(p) => if p != port {
                    None
                } else {
                    match parse_unsigned(parts.last(), u32::MAX as nat) {
                        None => None,
                        Some(pid) => Some((addr, p, pid, parts[3])),
                    }
                },
            }
        }
    }
}

/// Reads one `netstat` line (see `netstat_row`).  The process name is left
/// empty for the caller, who looks the process up.
pub fn parse_netstat_line(line: &str, port: u16) -> (r: Option<PortMapping>)
    ensures
        match netstat_row(line@, port) {
            Some((addr, p, pid, st)) => r matches Some(m) && m.local_addr@ == addr && m.port == p
                && m.pid == pid && m.state@ == st && m.protocol@ == "TCP"@ && m.process_name@.len()
                == 0,
            None => r is None,
        },
{
    let parts = split_words(chars_of(line).as_slice());
    if parts.len() < 5 {
        return None;
    }
    let addr = &parts[1];
    let mut s: usize = addr.len();
    while s > 0 && addr[s - 1] != ':'
        invariant
            s <= addr@.len(),
            forall|j: int| s <= j < addr@.len() ==> #[trigger] addr@[j] != ':',
        decreases s,
    {
        s -= 1;
    }
    proof {
        lemma_tail_without_le(addr@, ':');
        lemma_tail_without_at(addr@, ':', addr@.len() - s);
    }
    if s == 0 {
        return None;
    }
    let port_text = slice_chars(addr.as_slice(), s, addr.len());
    let p = match parse_unsigned_chars(port_text.as_slice(), 65535) {
        Some(v) => v,
        None => return None,
    };
    if p != port as u64 {
        return None;
    }
    let last = &parts[parts.len() - 1];
    let pid = match parse_unsigned_chars(last.as_slice(), 4294967295) {
        Some(v) => v,
        None => return None,
    };
    let local = string_from_chars(addr.as_slice());
    let state = string_from_chars(parts[3].as_slice());
    Some(
        PortMapping {
            protocol: String::from_str("TCP"),
            local_addr: local,
            port: p as u16,
            pid: pid as u32,
            process_name: String::new(),
            state,
        },
    )
}

} // verus!
