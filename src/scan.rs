//! Unused-dependency scanners: reading what the two scanner tools print, and
//! choosing between them.

use vstd::prelude::*;
use crate::text::{blank, chars_of, is_blank, string_of, trim, trim_bounds};

verus! {

/// A dependency that a scanner reported as unused, and the manifest section
/// it stands in.
#[derive(Debug, Clone)]
pub struct UnusedDependency {
    pub name: String,
    pub location: String,
}

impl View for UnusedDependency {
    type V = (Seq<char>, Seq<char>);

    open spec fn view(&self) -> (Seq<char>, Seq<char>) {
        (self.name@, self.location@)
    }
}

/// The (name, location) pairs of a list of dependencies.
pub open spec fn deps_view(v: Seq<UnusedDependency>) -> Seq<(Seq<char>, Seq<char>)> {
    v.map_values(|d: UnusedDependency| d@)
}

/// The section that the line-oriented scanner's findings are filed under: it
/// does not name one.
pub open spec fn regular_section() -> Seq<char> {
    seq!['[', 'd', 'e', 'p', 'e', 'n', 'd', 'e', 'n', 'c', 'i', 'e', 's', ']']
}

/// The phrase that introduces a finding of the line-oriented scanner.
pub open spec fn finding_marker() -> Seq<char> {
    seq![
        'u', 'n', 'u', 's', 'e', 'd', ' ', 'd', 'e', 'p', 'e', 'n', 'd', 'e', 'n', 'c', 'y', ':'
    ]
}

pub open spec fn occurs_at(t: Seq<char>, pat: Seq<char>, i: int) -> bool {
    0 <= i && i + pat.len() <= t.len() && t.subrange(i, i + pat.len()) == pat
}

pub open spec fn occurs_in(t: Seq<char>, pat: Seq<char>) -> bool {
    exists|i: int| occurs_at(t, pat, i)
}

/// The first index at or after `from` where `t` holds `c`.
pub open spec fn first_from(t: Seq<char>, c: char, from: int) -> Option<int>
    decreases t.len() - from,
{
    if from < 0 || from >= t.len() {
        None
    } else if t[from] == c {
        Some(from)
    } else {
        first_from(t, c, from + 1)
    }
}

/// Whether `t` holds a blank.
pub open spec fn has_blank_in(t: Seq<char>) -> bool {
    exists|i: int| 0 <= i < t.len() && is_blank(#[trigger] t[i])
}

/// The dependency named by one line of the line-oriented scanner, if any.
/// Trimmed, the line either holds the marker phrase, and the name is what the
/// first two backticks enclose, where that is not empty; or it is a single
/// backtick-quoted word, without blanks inside.
/// The second form also takes any other output that looks like that: a known
/// risk of the scanner's format.
pub open spec fn line_dependency(line: Seq<char>) -> Option<Seq<char>> {
    let t = trim(line);
    if occurs_in(t, finding_marker()) {
        match first_from(t, '`', 0) {
            Some(s) => match first_from(t, '`', s + 1) {
                Some(e) => if e > s + 1 {
                    Some(t.subrange(s + 1, e))
                } else {
                    None
                },
                None => None,
            },
            None => None,
        }
    } else if t.len() > 2 && t[0] == '`' && t.last() == '`' && !has_blank_in(
        t.subrange(1, t.len() - 1),
    ) {
        Some(t.subrange(1, t.len() - 1))
    } else {
        None
    }
}

/// The lines of `s`, split at each line feed; the last one may be empty.
pub open spec fn lines_of(s: Seq<char>) -> Seq<Seq<char>>
    decreases s.len(),
{
    if s.len() == 0 {
        seq![Seq::empty()]
    } else if s.last() == '\n' {
        lines_of(s.drop_last()).push(Seq::empty())
    } else {
        let ls = lines_of(s.drop_last());
        ls.update(ls.len() - 1, ls.last().push(s.last()))
    }
}

/// The dependencies named by a list of lines, in order.
pub open spec fn names_of(ls: Seq<Seq<char>>) -> Seq<Seq<char>>
    decreases ls.len(),
{
    if ls.len() == 0 {
        Seq::empty()
    } else {
        match line_dependency(ls.last()) {
            Some(n) => names_of(ls.drop_last()).push(n),
            None => names_of(ls.drop_last()),
        }
    }
}

/// The dependency names that the line-oriented scanner's output reports.
pub open spec fn line_scanner_names(s: Seq<char>) -> Seq<Seq<char>> {
    names_of(lines_of(s))
}

fn regular_section_string() -> (r: String)
    ensures
        r@ == regular_section(),
{
    let v: Vec<char> = vec!['[', 'd', 'e', 'p', 'e', 'n', 'd', 'e', 'n', 'c', 'i', 'e', 's', ']'];
    assert(v@ =~= regular_section());
    string_of(&v)
}

/// The chars `cs[a..b]` as a String.
fn string_of_range(cs: &Vec<char>, a: usize, b: usize) -> (r: String)
    requires
        a <= b <= cs@.len(),
    ensures
        r@ == cs@.subrange(a as int, b as int),
{
    let mut v: Vec<char> = Vec::new();
    let mut i = a;
    while i < b
        invariant
            a <= i <= b <= cs@.len(),
            v@ == cs@.subrange(a as int, i as int),
        decreases b - i,
    {
        v.push(cs[i]);
        assert(v@ =~= cs@.subrange(a as int, i + 1));
        i = i + 1;
    }
    string_of(&v)
}

/// Whether the marker phrase occurs in `cs[a..b]`.
fn has_marker(cs: &Vec<char>, a: usize, b: usize) -> (r: bool)
    requires
        a <= b <= cs@.len(),
    ensures
        r == occurs_in(cs@.subrange(a as int, b as int), finding_marker()),
{
    let pat: Vec<char> = vec![
        'u', 'n', 'u', 's', 'e', 'd', ' ', 'd', 'e', 'p', 'e', 'n', 'd', 'e', 'n', 'c', 'y', ':'
    ];
    assert(pat@ =~= finding_marker());
    let ghost t = cs@.subrange(a as int, b as int);
    let n = pat.len();
    if b - a < n {
        assert forall|i: int| !occurs_at(t, finding_marker(), i) by {}
        return false;
    }
    let mut i = a;
    while i <= b - n
        invariant
            a <= i <= b <= cs@.len(),
            n == pat@.len(),
            n <= b - a,
            pat@ == finding_marker(),
            t == cs@.subrange(a as int, b as int),
            forall|j: int| 0 <= j < i - a ==> !occurs_at(t, pat@, j),
        decreases b - i,
    {
        let mut k: usize = 0;
        while k < n && cs[i + k] == pat[k]
            invariant
                a <= i,
                i + n <= b <= cs@.len(),
                n == pat@.len(),
                k <= n,
                forall|q: int| 0 <= q < k ==> cs@[i + q] == pat@[q],
            decreases n - k,
        {
            k = k + 1;
        }
        if k == n {
            assert(t.subrange(i - a, i - a + n) =~= pat@);
            assert(occurs_at(t, pat@, i - a));
            return true;
        }
        assert(!occurs_at(t, pat@, i - a)) by {
            if occurs_at(t, pat@, i - a) {
                assert(t.subrange(i - a, i - a + n)[k as int] == pat@[k as int]);
            }
        }
        i = i + 1;
    }
    assert forall|j: int| !occurs_at(t, pat@, j) by {
        if 0 <= j && j >= i - a {
            assert(j + n > t.len());
        }
    }
    false
}

/// The first position at or after `from`, below `b`, where `cs` holds `c`;
/// positions are those of `cs`, and `first_from` counts from `a`.
fn find_from(cs: &Vec<char>, a: usize, b: usize, c: char, from: usize) -> (r: Option<usize>)
    requires
        a <= from <= b <= cs@.len(),
    ensures
        match r {
            None => first_from(cs@.subrange(a as int, b as int), c, from - a) is None,
            Some(p) => from <= p < b && first_from(cs@.subrange(a as int, b as int), c, from - a)
                == Some(p - a),
        },
{
    let ghost t = cs@.subrange(a as int, b as int);
    let mut i = from;
    while i < b
        invariant
            a <= from <= i <= b <= cs@.len(),
            t == cs@.subrange(a as int, b as int),
            first_from(t, c, from - a) == first_from(t, c, i - a),
        decreases b - i,
    {
        if cs[i] == c {
            return Some(i);
        }
        i = i + 1;
    }
    None
}

/// Whether `cs[a..b]` holds a blank.
fn has_blank(cs: &Vec<char>, a: usize, b: usize) -> (r: bool)
    requires
        a <= b <= cs@.len(),
    ensures
        r == has_blank_in(cs@.subrange(a as int, b as int)),
{
    let ghost t = cs@.subrange(a as int, b as int);
    let mut i = a;
    while i < b
        invariant
            a <= i <= b <= cs@.len(),
            t == cs@.subrange(a as int, b as int),
            forall|j: int| a <= j < i ==> !is_blank(#[trigger] cs@[j]),
        decreases b - i,
    {
        if blank(cs[i]) {
            assert(is_blank(t[i - a]));
            return true;
        }
        i = i + 1;
    }
    assert(!has_blank_in(t)) by {
        if has_blank_in(t) {
            let j = choose|j: int| 0 <= j < t.len() && is_blank(#[trigger] t[j]);
            assert(is_blank(cs@[a + j]));
        }
    }
    false
}

/// The bounds of the dependency name on the line `cs[st..en]`, if it names
/// one.
fn line_name(cs: &Vec<char>, st: usize, en: usize) -> (r: Option<(usize, usize)>)
    requires
        st <= en <= cs@.len(),
    ensures
        match r {
            None => line_dependency(cs@.subrange(st as int, en as int)) is None,
            Some((x, y)) => x <= y <= cs@.len() && line_dependency(
                cs@.subrange(st as int, en as int),
            ) == Some(cs@.subrange(x as int, y as int)),
        },
{
    let (a, b) = trim_bounds(cs, st, en);
    let ghost t = cs@.subrange(a as int, b as int);
    if b - a >= 2 {
        assert(t.subrange(1, t.len() - 1) =~= cs@.subrange(a + 1, b - 1));
        assert(t[0] == cs@[a as int] && t.last() == cs@[b - 1]);
    }
    if has_marker(cs, a, b) {
        match find_from(cs, a, b, '`', a) {
            Some(s) => match find_from(cs, a, b, '`', s + 1) {
                Some(e) => {
                    if e == s + 1 {
                        return None;
                    }
                    assert(t.subrange(s - a + 1, e - a) =~= cs@.subrange(s + 1, e as int));
                    Some((s + 1, e))
                },
                None => None,
            },
            None => None,
        }
    } else if b - a > 2 && cs[a] == '`' && cs[b - 1] == '`' && !has_blank(cs, a + 1, b - 1) {
        assert(t.subrange(1, t.len() - 1) =~= cs@.subrange(a + 1, b - 1));
        Some((a + 1, b - 1))
    } else {
        None
    }
}

/// Reads the output of the line-oriented scanner: one dependency for each
/// line that names one, in order, all filed under the regular section.
pub fn parse_machete_output(output: &str) -> (r: Result<Vec<UnusedDependency>, String>)
    ensures
        r is Ok,
        r matches Ok(v) ==> v@.map_values(|d: UnusedDependency| d.name@) == line_scanner_names(
            output@,
        ),
        r matches Ok(v) ==> forall|i: int|
            0 <= i < v@.len() ==> (#[trigger] v@[i]).location@ == regular_section(),
{
    let cs = chars_of(output);
    let mut found: Vec<UnusedDependency> = Vec::new();
    let mut st: usize = 0;
    let mut i: usize = 0;
    proof {
        assert(cs@.subrange(0, 0) =~= Seq::<char>::empty());
    }
    while i < cs.len()
        invariant
            st <= i <= cs@.len(),
            cs@ == output@,
            lines_of(cs@.subrange(0, i as int)).len() >= 1,
            lines_of(cs@.subrange(0, i as int)).last() == cs@.subrange(st as int, i as int),
            found@.map_values(|d: UnusedDependency| d.name@) == names_of(
                lines_of(cs@.subrange(0, i as int)).drop_last(),
            ),
            forall|j: int| 0 <= j < found@.len() ==> (#[trigger] found@[j]).location@
                == regular_section(),
        decreases cs@.len() - i,
    {
        let ghost ls = lines_of(cs@.subrange(0, i as int));
        let ghost before = found@;
        assert(cs@.subrange(0, i + 1).drop_last() =~= cs@.subrange(0, i as int));
        if cs[i] == '\n' {
            match line_name(&cs, st, i) {
                Some((x, y)) => {
                    let name = string_of_range(&cs, x, y);
                    found.push(UnusedDependency { name, location: regular_section_string() });
                    assert(found@.map_values(|d: UnusedDependency| d.name@) =~= before.map_values(
                        |d: UnusedDependency| d.name@,
                    ).push(name@));
                },
                None => {},
            }
            assert(lines_of(cs@.subrange(0, i + 1)).drop_last() =~= ls);
            assert(ls =~= ls.drop_last().push(ls.last()));
            st = i + 1;
            assert(cs@.subrange(st as int, i + 1) =~= Seq::<char>::empty());
        } else {
            let ghost nls = lines_of(cs@.subrange(0, i + 1));
            assert(nls.drop_last() =~= ls.drop_last());
            assert(nls.last() =~= cs@.subrange(st as int, i + 1));
        }
        i = i + 1;
    }
    let ghost ls = lines_of(cs@.subrange(0, i as int));
    let ghost before = found@;
    assert(cs@.subrange(0, i as int) =~= output@);
    match line_name(&cs, st, i) {
        Some((x, y)) => {
            let name = string_of_range(&cs, x, y);
            found.push(UnusedDependency { name, location: regular_section_string() });
            assert(found@.map_values(|d: UnusedDependency| d.name@) =~= before.map_values(
                |d: UnusedDependency| d.name@,
            ).push(name@));
        },
        None => {},
    }
    assert(ls =~= ls.drop_last().push(ls.last()));
    Ok(found)
}


/// The text members `first` and `second` of each element of the array
/// member `list` of the JSON document `s`, in order (`None` where a member is
/// missing or not a string); empty where `s` is no JSON object with such an
/// array.
pub uninterp spec fn json_string_pairs(
    s: Seq<char>,
    list: Seq<char>,
    first: Seq<char>,
    second: Seq<char>,
) -> Seq<(Option<Seq<char>>, Option<Seq<char>>)>;

/// The views of a list of optional text pairs.
pub open spec fn pairs_view(v: Seq<(Option<String>, Option<String>)>) -> Seq<
    (Option<Seq<char>>, Option<Seq<char>>),
> {
    v.map_values(
        |e: (Option<String>, Option<String>)|
            (
                match e.0 {
                    Some(x) => Some(x@),
                    None => None,
                },
                match e.1 {
                    Some(x) => Some(x@),
                    None => None,
                },
            ),
    )
}

/// Relies on serde_json::from_str into a Value, then Value::get, as_array and
/// as_str: the string members `first` and `second` of each element of the
/// array `list`. Empty text is no JSON document.
#[verifier::external_body]
fn json_string_pairs_of(s: &str, list: &str, first: &str, second: &str) -> (r: Vec<
    (Option<String>, Option<String>),
>)
    ensures
        pairs_view(r@) == json_string_pairs(s@, list@, first@, second@),
        s@.len() == 0 ==> r@.len() == 0,
{
    let text = |v: &serde_json::Value, k: &str| v.get(k).and_then(|x| x.as_str()).map(String::from);
    serde_json::from_str::<serde_json::Value>(s)
        .ok()
        .as_ref()
        .and_then(|d| d.get(list))
        .and_then(|v| v.as_array())
        .map(|items| items.iter().map(|i| (text(i, first), text(i, second))).collect())
        .unwrap_or_default()
}

/// The entries that have both a name and a location, in order.
pub open spec fn complete_entries(entries: Seq<(Option<Seq<char>>, Option<Seq<char>>)>) -> Seq<
    (Seq<char>, Seq<char>),
>
    decreases entries.len(),
{
    if entries.len() == 0 {
        Seq::empty()
    } else {
        let rest = complete_entries(entries.drop_last());
        match entries.last() {
            (Some(n), Some(l)) => rest.push((n, l)),
            _ => rest,
        }
    }
}

/// Keeps the entries of the structured scanner that have both a name and a
/// location, in order; the others are skipped.
pub fn collect_entries(entries: Vec<(Option<String>, Option<String>)>) -> (r: Vec<UnusedDependency>)
    ensures
        deps_view(r@) == complete_entries(pairs_view(entries@)),
{
    let mut found: Vec<UnusedDependency> = Vec::new();
    let ghost all = entries@;
    let mut i: usize = 0;
    let n = entries.len();
    while i < n
        invariant
            n == all.len(),
            i <= n,
            entries@ == all,
            deps_view(found@) == complete_entries(pairs_view(all.subrange(0, i as int))),
        decreases n - i,
    {
        let ghost before = found@;
        assert(pairs_view(all.subrange(0, i + 1)).drop_last() =~= pairs_view(
            all.subrange(0, i as int),
        ));
        match &entries[i] {
            (Some(name), Some(location)) => {
                found.push(UnusedDependency { name: name.clone(), location: location.clone() });
                assert(deps_view(found@) =~= deps_view(before).push((name@, location@)));
            },
            _ => {},
        }
        i = i + 1;
    }
    assert(all.subrange(0, n as int) =~= all);
    found
}

/// The name of the array that the structured scanner reports in.
pub open spec fn findings_key() -> Seq<char> {
    seq!['u', 'n', 'u', 's', 'e', 'd', '_', 'd', 'e', 'p', 's']
}

pub open spec fn name_key() -> Seq<char> {
    seq!['n', 'a', 'm', 'e']
}

pub open spec fn location_key() -> Seq<char> {
    seq!['l', 'o', 'c', 'a', 't', 'i', 'o', 'n']
}

/// What the structured scanner's output `s` reports: the complete entries of
/// its `unused_deps` array.
pub open spec fn structured_findings(s: Seq<char>) -> Seq<(Seq<char>, Seq<char>)> {
    complete_entries(json_string_pairs(s, findings_key(), name_key(), location_key()))
}

/// Reads the structured scanner's JSON output: the entries of its
/// `unused_deps` array that carry both a `name` and a `location` string.
/// Text that is not such a document yields nothing.
pub fn parse_udeps_output(output: &str) -> (r: Vec<UnusedDependency>)
    ensures
        deps_view(r@) == structured_findings(output@),
        output@.len() == 0 ==> r@.len() == 0,
{
    let list = string_of(&vec!['u', 'n', 'u', 's', 'e', 'd', '_', 'd', 'e', 'p', 's']);
    let first = string_of(&vec!['n', 'a', 'm', 'e']);
    let second = string_of(&vec!['l', 'o', 'c', 'a', 't', 'i', 'o', 'n']);
    assert(list@ =~= findings_key());
    assert(first@ =~= name_key());
    assert(second@ =~= location_key());
    let entries = json_string_pairs_of(output, list.as_str(), first.as_str(), second.as_str());
    assert(entries@.len() == 0 ==> complete_entries(pairs_view(entries@)).len() == 0) by {
        if entries@.len() == 0 {
            assert(pairs_view(entries@) =~= Seq::<(Option<Seq<char>>, Option<Seq<char>>)>::empty());
        }
    }
    let r = collect_entries(entries);
    assert(r@.len() == deps_view(r@).len());
    r
}

/// What to do once the structured scanner has run.
pub enum ScanAction {
    /// It found nothing: ask the line-oriented scanner.
    RunLineScanner,
    /// These are the unused dependencies of the project.
    Report(Vec<UnusedDependency>),
}

/// Chooses from what the structured scanner's two streams yielded: the first
/// non-empty list wins, standard output first; only when both are empty is
/// the line-oriented scanner asked.
pub fn after_structured_scan(from_stdout: Vec<UnusedDependency>, from_stderr: Vec<UnusedDependency>) -> (r: ScanAction)
    ensures
        from_stdout@.len() > 0 ==> r == ScanAction::Report(from_stdout),
        from_stdout@.len() == 0 && from_stderr@.len() > 0 ==> r == ScanAction::Report(
            from_stderr,
        ),
        from_stdout@.len() == 0 && from_stderr@.len() == 0 ==> r is RunLineScanner,
{
    if from_stdout.len() > 0 {
        ScanAction::Report(from_stdout)
    } else if from_stderr.len() > 0 {
        ScanAction::Report(from_stderr)
    } else {
        ScanAction::RunLineScanner
    }
}

/// Reads both streams of the structured scanner, whatever its exit status:
/// the first that reports something is the answer, standard output first;
/// where neither does, the line-oriented scanner is asked.
pub fn structured_scan(stdout: &str, stderr: &str) -> (r: ScanAction)
    ensures
        structured_findings(stdout@).len() > 0 ==> (r matches ScanAction::Report(v) && deps_view(
            v@,
        ) == structured_findings(stdout@)),
        structured_findings(stdout@).len() == 0 && structured_findings(stderr@).len() > 0 ==> (
        r matches ScanAction::Report(v) && deps_view(v@) == structured_findings(stderr@)),
        structured_findings(stdout@).len() == 0 && structured_findings(stderr@).len() == 0
            ==> r is RunLineScanner,
{
    let from_stdout = parse_udeps_output(stdout);
    let from_stderr = parse_udeps_output(stderr);
    after_structured_scan(from_stdout, from_stderr)
}

/// The dependency names that the line-oriented scanner reports from its two
/// streams: standard output where it names any, else standard error.
pub open spec fn line_scan_names(stdout: Seq<char>, stderr: Seq<char>) -> Seq<Seq<char>> {
    if line_scanner_names(stdout).len() > 0 {
        line_scanner_names(stdout)
    } else {
        line_scanner_names(stderr)
    }
}

/// Reads both streams of the line-oriented scanner, whatever its exit
/// status; this is the last scanner, so an empty list means none found.
pub fn line_scan(stdout: &str, stderr: &str) -> (r: Vec<UnusedDependency>)
    ensures
        r@.map_values(|d: UnusedDependency| d.name@) == line_scan_names(stdout@, stderr@),
        forall|i: int| 0 <= i < r@.len() ==> (#[trigger] r@[i]).location@ == regular_section(),
{
    let from_stdout = match parse_machete_output(stdout) {
        Ok(v) => v,
        Err(_) => Vec::new(),
    };
    if from_stdout.len() > 0 {
        assert(from_stdout@.map_values(|d: UnusedDependency| d.name@).len() > 0);
        return from_stdout;
    }
    assert(from_stdout@.map_values(|d: UnusedDependency| d.name@).len() == 0);
    match parse_machete_output(stderr) {
        Ok(v) => v,
        Err(_) => Vec::new(),
    }
}

} // verus!
