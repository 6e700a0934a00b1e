//! The process search of the tools page.
use vstd::prelude::*;
use crate::text::chars_of;

verus! {

/// The lower case of a text by the Unicode rules of `str::to_lowercase`.
pub uninterp spec fn unicode_lowercase(s: Seq<char>) -> Seq<char>;

/// `str::to_lowercase`: the text in lower case.  Its result depends on the
/// text alone (no locale); the mapping itself is Unicode's and is not
/// written out here.
#[verifier::external_body]
fn to_lowercase(s: &str) -> (r: String)
    ensures
        r@ == unicode_lowercase(s@),
{
    s.to_lowercase()
}

/// Whether `needle` occurs in `hay`.
pub open spec fn has_infix(hay: Seq<char>, needle: Seq<char>) -> bool {
    exists|i: int| 0 <= i <= hay.len() - needle.len() && #[trigger] hay.subrange(i, i + needle.len()) == needle
}

fn occurs_at(hay: &[char], needle: &[char], i: usize) -> (b: bool)
    requires
        i + needle@.len() <= hay@.len(),
    ensures
        b == (hay@.subrange(i as int, i + needle@.len()) == needle@),
{
    let mut k: usize = 0;
    while k < needle.len()
        invariant
            i + needle.len() <= hay.len(),
            k <= needle@.len(),
            forall|m: int| 0 <= m < k ==> hay@[i + m] == needle@[m],
        decreases needle@.len() - k,
    {
        if hay[i + k] != needle[k] {
            assert(hay@.subrange(i as int, i + needle@.len())[k as int] != needle@[k as int]);
            return false;
        }
        k += 1;
    }
    assert(hay@.subrange(i as int, i + needle@.len()) =~= needle@);
    true
}

/// Whether `needle` occurs in `hay` (see `has_infix`).
pub fn contains_chars(hay: &[char], needle: &[char]) -> (b: bool)
    ensures
        b == has_infix(hay@, needle@),
{
    if needle.len() > hay.len() {
        return false;
    }
    let last = hay.len() - needle.len();
    let mut i: usize = 0;
    loop
        invariant
            last == hay@.len() - needle@.len(),
            i <= last,
            forall|j: int| 0 <= j < i ==> #[trigger] hay@.subrange(j, j + needle@.len()) != needle@,
        decreases last - i,
    {
        if occurs_at(hay, needle, i) {
            return true;
        }
        if i == last {
            return false;
        }
        i += 1;
    }
}

/// A process as the search lists it; CPU usage in hundredths of a percent.
#[derive(Clone, Debug)]
pub struct ProcessRow {
    pub pid: u32,
    pub name: String,
    pub cpu_hundredths: u64,
    pub memory_bytes: u64,
}

/// Whether a process named `name` matches the search `keyword`: the
/// keyword occurs in the name, both in lower case.
pub open spec fn name_matches(name: Seq<char>, keyword: Seq<char>) -> bool {
    has_infix(unicode_lowercase(name), unicode_lowercase(keyword))
}

/// `r` lists the rows `rows[ord[i]]`: every row matching `keyword` once,
/// busiest first, rows of equal usage in their original order.
pub open spec fn search_result(r: Seq<ProcessRow>, rows: Seq<ProcessRow>, keyword: Seq<char>, ord: Seq<int>) -> bool {
    &&& ord.len() == r.len()
    &&& forall|i: int|
        0 <= i < ord.len() ==> 0 <= #[trigger] ord[i] < rows.len() && r[i] == rows[ord[i]] && name_matches(
            rows[ord[i]].name@,
            keyword,
        )
    &&& forall|a: int, b: int| 0 <= a < b < ord.len() ==> #[trigger] ord[a] != #[trigger] ord[b]
    &&& forall|j: int| 0 <= j < rows.len() && name_matches(#[trigger] rows[j].name@, keyword) ==> ord.contains(j)
    &&& forall|a: int, b: int|
        0 <= a < b < r.len() ==> #[trigger] r[a].cpu_hundredths >= #[trigger] r[b].cpu_hundredths
    &&& forall|a: int, b: int|
        0 <= a < b < r.len() && r[a].cpu_hundredths == r[b].cpu_hundredths ==> #[trigger] ord[a] < #[trigger] ord[b]
}

/// Inserts the position `i` into `order`, which is ordered by the rows'
/// usage (descending, equal usage by position), after every position of
/// usage at least that of `i`.
fn insert_by_usage(rows: &Vec<ProcessRow>, order: &mut Vec<usize>, i: usize)
    requires
        i < rows@.len(),
        forall|m: int| 0 <= m < old(order)@.len() ==> #[trigger] old(order)@[m] < i,
        forall|a: int, b: int| 0 <= a < b < old(order)@.len() ==> #[trigger] old(order)@[a] != #[trigger] old(order)@[b],
        forall|a: int, b: int|
            0 <= a < b < old(order)@.len() ==> #[trigger] rows@[old(order)@[a] as int].cpu_hundredths
                >= #[trigger] rows@[old(order)@[b] as int].cpu_hundredths,
        forall|a: int, b: int|
            0 <= a < b < old(order)@.len() && rows@[old(order)@[a] as int].cpu_hundredths
                == rows@[old(order)@[b] as int].cpu_hundredths ==> #[trigger] old(order)@[a] < #[trigger] old(order)@[b],
    ensures
        forall|m: int| 0 <= m < final(order)@.len() ==> (#[trigger] final(order)@[m] == i || old(order)@.contains(final(order)@[m])),
        forall|x: usize| old(order)@.contains(x) ==> #[trigger] final(order)@.contains(x),
        final(order)@.contains(i),
        forall|a: int, b: int| 0 <= a < b < final(order)@.len() ==> #[trigger] final(order)@[a] != #[trigger] final(order)@[b],
        forall|a: int, b: int|
            0 <= a < b < final(order)@.len() ==> #[trigger] rows@[final(order)@[a] as int].cpu_hundredths
                >= #[trigger] rows@[final(order)@[b] as int].cpu_hundredths,
        forall|a: int, b: int|
            0 <= a < b < final(order)@.len() && rows@[final(order)@[a] as int].cpu_hundredths
                == rows@[final(order)@[b] as int].cpu_hundredths ==> #[trigger] final(order)@[a] < #[trigger] final(order)@[b],
{
    let ci = rows[i].cpu_hundredths;
    let mut p: usize = 0;
    while p < order.len() && rows[order[p]].cpu_hundredths >= ci
        invariant
            i < rows@.len(),
            ci == rows@[i as int].cpu_hundredths,
            p <= order@.len(),
            order@ == old(order)@,
            forall|m: int| 0 <= m < order@.len() ==> #[trigger] order@[m] < i,
            forall|m: int| 0 <= m < p ==> rows@[#[trigger] order@[m] as int].cpu_hundredths >= ci,
        decreases order@.len() - p,
    {
        p += 1;
    }
    let ghost before = order@;
    order.insert(p, i);
    proof {
        assert(order@ =~= before.insert(p as int, i));
        assert forall|m: int| 0 <= m < order@.len() implies (#[trigger] order@[m] == i || before.contains(order@[m])) by {
            if m < p {
                assert(order@[m] == before[m]);
            } else if m > p {
                assert(order@[m] == before[m - 1]);
            }
        }
        assert forall|x: usize| before.contains(x) implies #[trigger] order@.contains(x) by {
            let q = choose|q: int| 0 <= q < before.len() && before[q] == x;
            if q < p {
                assert(order@[q] == x);
            } else {
                assert(order@[q + 1] == x);
            }
        }
        assert(order@[p as int] == i);
        assert forall|a: int, b: int| 0 <= a < b < order@.len() implies #[trigger] order@[a] != #[trigger] order@[b] by {
            if a < p {
                assert(order@[a] == before[a]);
            } else if a > p {
                assert(order@[a] == before[a - 1]);
            }
            if b < p {
                assert(order@[b] == before[b]);
            } else if b > p {
                assert(order@[b] == before[b - 1]);
            }
        }
        assert forall|a: int, b: int| 0 <= a < b < order@.len() implies #[trigger] rows@[order@[a] as int].cpu_hundredths
            >= #[trigger] rows@[order@[b] as int].cpu_hundredths by {
            if a < p {
                assert(order@[a] == before[a]);
            } else if a > p {
                assert(order@[a] == before[a - 1]);
            }
            if b < p {
                assert(order@[b] == before[b]);
            } else if b > p {
                assert(order@[b] == before[b - 1]);
            }
            if a == p && b > p + 1 {
                assert(rows@[before[p as int] as int].cpu_hundredths >= rows@[before[b - 1] as int].cpu_hundredths);
            }
        }
        assert forall|a: int, b: int|
            0 <= a < b < order@.len() && rows@[order@[a] as int].cpu_hundredths
                == rows@[order@[b] as int].cpu_hundredths implies #[trigger] order@[a] < #[trigger] order@[b] by {
            if a < p {
                assert(order@[a] == before[a]);
            } else if a > p {
                assert(order@[a] == before[a - 1]);
            }
            if b < p {
                assert(order@[b] == before[b]);
            } else if b > p {
                assert(order@[b] == before[b - 1]);
            }
            if a == p && b > p + 1 {
                assert(rows@[before[p as int] as int].cpu_hundredths >= rows@[before[b - 1] as int].cpu_hundredths);
            }
        }
    }
}

/// The processes whose name matches `keyword` (none for an empty keyword),
/// busiest first (see `search_result`).
pub fn find_processes(rows: &Vec<ProcessRow>, keyword: &str) -> (r: Vec<ProcessRow>)
    ensures
        keyword@.len() == 0 ==> r@.len() == 0,
        keyword@.len() > 0 ==> exists|ord: Seq<int>| search_result(r@, rows@, keyword@, ord),
{
    if keyword.unicode_len() == 0 {
        return Vec::new();
    }
    let kw_lower = to_lowercase(keyword);
    let kw = chars_of(kw_lower.as_str());
    // positions of the matching rows, kept ordered by usage (descending, stable)
    let mut order: Vec<usize> = Vec::new();
    let mut i: usize = 0;
    while i < rows.len()
        invariant
            kw@ == unicode_lowercase(keyword@),
            i <= rows@.len(),
            forall|m: int| 0 <= m < order@.len() ==> #[trigger] order@[m] < i && name_matches(rows@[order@[m] as int].name@, keyword@),
            forall|a: int, b: int| 0 <= a < b < order@.len() ==> #[trigger] order@[a] != #[trigger] order@[b],
            forall|j: int| 0 <= j < i && name_matches(#[trigger] rows@[j].name@, keyword@) ==> order@.contains(j as usize),
            forall|a: int, b: int|
                0 <= a < b < order@.len() ==> #[trigger] rows@[order@[a] as int].cpu_hundredths
                    >= #[trigger] rows@[order@[b] as int].cpu_hundredths,
            forall|a: int, b: int|
                0 <= a < b < order@.len() && rows@[order@[a] as int].cpu_hundredths
                    == rows@[order@[b] as int].cpu_hundredths ==> #[trigger] order@[a] < #[trigger] order@[b],
        decreases rows@.len() - i,
    {
        let name_lower = to_lowercase(rows[i].name.as_str());
        let name = chars_of(name_lower.as_str());
        if contains_chars(name.as_slice(), kw.as_slice()) {
            let ghost before = order@;
            insert_by_usage(rows, &mut order, i);
            proof {
                assert forall|m: int| 0 <= m < order@.len() implies #[trigger] order@[m] < i + 1 && name_matches(
                    rows@[order@[m] as int].name@,
                    keyword@,
                ) by {
                    if order@[m] != i {
                        let q = choose|q: int| 0 <= q < before.len() && before[q] == order@[m];
                        assert(name_matches(rows@[before[q] as int].name@, keyword@));
                    }
                }
                assert forall|j: int| 0 <= j < i + 1 && name_matches(#[trigger] rows@[j].name@, keyword@) implies order@.contains(
                    j as usize,
                ) by {
                    if j < i {
                        assert(before.contains(j as usize));
                    }
                }
            }
        }
        i += 1;
    }
    let mut r: Vec<ProcessRow> = Vec::new();
    let mut m: usize = 0;
    while m < order.len()
        invariant
            m <= order@.len(),
            r@.len() == m,
            forall|q: int| 0 <= q < order@.len() ==> #[trigger] order@[q] < rows@.len(),
            forall|q: int| 0 <= q < m ==> #[trigger] r@[q] == rows@[order@[q] as int],
        decreases order@.len() - m,
    {
        let row = &rows[order[m]];
        r.push(ProcessRow {
            pid: row.pid,
            name: row.name.clone(),
            cpu_hundredths: row.cpu_hundredths,
            memory_bytes: row.memory_bytes,
        });
        m += 1;
    }
    proof {
        let ord = order@.map_values(|x: usize| x as int);
        assert forall|j: int| 0 <= j < rows@.len() && name_matches(#[trigger] rows@[j].name@, keyword@) implies ord.contains(j) by {
            assert(order@.contains(j as usize));
            let q = choose|q: int| 0 <= q < order@.len() && order@[q] == j as usize;
            assert(ord[q] == j);
        }
        assert(search_result(r@, rows@, keyword@, ord));
    }
    r
}

} // verus!
