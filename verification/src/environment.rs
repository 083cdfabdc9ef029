//! What is known of a CS2 installation on this machine: running `cs2.exe`
//! processes, Steam library folders, module and dumper-output candidates.

use vstd::prelude::*;
use vstd::multiset::Multiset;
use crate::seqs::lemma_insert_multiset;
use crate::text::{
    chars_lt, chars_of, chars_eq_ignore_ascii_case, eq_ignore_ascii_case, lemma_chars_lt_order, str_lt,
    string_from_chars, trim, trim_chars,
};

verus! {

/// A running process that looks like the game.
#[derive(Debug, Clone)]
pub struct Cs2Process {
    /// The process id, as text.
    pub pid: String,
    /// The process name.
    pub name: String,
    /// The path of the process's executable, when it is known.
    pub exe: Option<String>,
}

/// The detected context: game processes, install roots, module files and
/// dumper output folders.
#[derive(Debug, Clone)]
pub struct Cs2Environment {
    /// The `cs2.exe` processes, by process id.
    pub processes: Vec<Cs2Process>,
    /// The game's install folders.
    pub install_roots: Vec<String>,
    /// The module files found in the install folders.
    pub module_candidates: Vec<String>,
    /// The dumper output folders found near the working folder.
    pub dump_candidates: Vec<String>,
}

/// A process as plain values: pid, name, executable path.
pub type ProcessRow = (Seq<char>, Seq<char>, Option<Seq<char>>);

impl Cs2Process {
    /// The plain-value form of the process.
    pub open spec fn row(&self) -> ProcessRow {
        (
            self.pid@,
            self.name@,
            match self.exe {
                Some(e) => Some(e@),
                None => None,
            },
        )
    }
}

/// The plain-value form of a list of processes.
pub open spec fn process_rows(v: Seq<Cs2Process>) -> Seq<ProcessRow> {
    v.map_values(|p: Cs2Process| p.row())
}

/// The name of the game's executable.
pub open spec fn game_exe() -> Seq<char> {
    seq!['c', 's', '2', '.', 'e', 'x', 'e']
}

/// Whether a process is the game: its name in ASCII lower case is
/// `cs2.exe`.
pub open spec fn is_game_process(p: ProcessRow) -> bool {
    eq_ignore_ascii_case(p.1, game_exe())
}

/// The game processes among `rows`, in their order.
pub open spec fn game_processes(rows: Seq<ProcessRow>) -> Seq<ProcessRow>
    decreases rows.len(),
{
    if rows.len() == 0 {
        seq![]
    } else {
        game_processes(rows.drop_last()) + (if is_game_process(rows.last()) {
            seq![rows.last()]
        } else {
            Seq::<ProcessRow>::empty()
        })
    }
}

/// Whether processes are ordered by their pid text.
pub open spec fn sorted_by_pid(r: Seq<ProcessRow>) -> bool {
    forall|i: int, j: int| 0 <= i < j < r.len() ==> !chars_lt(#[trigger] r[j].0, #[trigger] r[i].0)
}

/// Inserts a process into a list ordered by pid, before every process whose
/// pid is not smaller.
fn insert_by_pid(out: &mut Vec<Cs2Process>, x: Cs2Process)
    requires
        sorted_by_pid(process_rows(old(out)@)),
    ensures
        sorted_by_pid(process_rows(final(out)@)),
        process_rows(final(out)@).to_multiset() == process_rows(old(out)@).to_multiset().insert(x.row()),
{
    let ghost rows = process_rows(out@);
    let ghost key = x.pid@;
    let mut lo: usize = 0;
    let mut hi: usize = out.len();
    while lo < hi
        invariant
            rows == process_rows(out@),
            key == x.pid@,
            sorted_by_pid(rows),
            lo <= hi <= rows.len(),
            forall|i: int| 0 <= i < lo ==> chars_lt(#[trigger] rows[i].0, key),
            forall|i: int| hi <= i < rows.len() ==> !chars_lt(#[trigger] rows[i].0, key),
        decreases hi - lo,
    {
        let mid = lo + (hi - lo) / 2;
        if str_lt(out[mid].pid.as_str(), x.pid.as_str()) {
            assert forall|i: int| 0 <= i < mid + 1 implies chars_lt(#[trigger] rows[i].0, key) by {
                if i < mid {
                    lemma_chars_lt_order(rows[i].0, rows[mid as int].0, key);
                    lemma_chars_lt_order(rows[mid as int].0, rows[i].0, key);
                    assert(!chars_lt(rows[mid as int].0, rows[i].0));
                }
            }
            lo = mid + 1;
        } else {
            assert forall|i: int| mid <= i < rows.len() implies !chars_lt(#[trigger] rows[i].0, key) by {
                if i > mid {
                    assert(!chars_lt(rows[i].0, rows[mid as int].0));
                    lemma_chars_lt_order(rows[mid as int].0, rows[i].0, key);
                    lemma_chars_lt_order(rows[i].0, rows[mid as int].0, key);
                }
            }
            hi = mid;
        }
    }
    let ghost xr = x.row();
    out.insert(lo, x);
    proof {
        let p = lo as int;
        assert(process_rows(out@) =~= rows.insert(p, xr));
        lemma_insert_multiset(rows, p, xr);
        let r2 = rows.insert(p, xr);
        assert forall|i: int, j: int| 0 <= i < j < r2.len() implies !chars_lt(#[trigger] r2[j].0, #[trigger] r2[i].0) by {
            if j < p {
                assert(r2[i] == rows[i] && r2[j] == rows[j]);
            } else if j == p {
                assert(r2[i] == rows[i]);
                lemma_chars_lt_order(key, rows[i].0, key);
            } else if i == p {
                assert(r2[j] == rows[j - 1]);
            } else if i < p {
                assert(r2[i] == rows[i] && r2[j] == rows[j - 1]);
            } else {
                assert(r2[i] == rows[i - 1] && r2[j] == rows[j - 1]);
            }
        }
    }
}

/// Keeps the processes whose name in ASCII lower case is `cs2.exe` and
/// orders them by their pid text.
pub fn select_cs2_processes(all: Vec<Cs2Process>) -> (r: Vec<Cs2Process>)
    ensures
        sorted_by_pid(process_rows(r@)),
        process_rows(r@).to_multiset() == game_processes(process_rows(all@)).to_multiset(),
        forall|i: int|
            0 <= i < all@.len() && eq_ignore_ascii_case(
                (#[trigger] all@[i]).name@,
                seq!['c', 's', '2', '.', 'e', 'x', 'e'],
            ) ==> process_rows(r@).contains(all@[i].row()),
        forall|j: int|
            0 <= j < r@.len() ==> eq_ignore_ascii_case(
                (#[trigger] r@[j]).name@,
                seq!['c', 's', '2', '.', 'e', 'x', 'e'],
            ),
{
    broadcast use vstd::seq_lib::group_to_multiset_ensures, vstd::multiset::group_multiset_axioms;

    let target: Vec<char> = vec!['c', 's', '2', '.', 'e', 'x', 'e'];
    assert(target@ =~= game_exe());
    let ghost rows = process_rows(all@);
    let ghost all_view = all@;
    let mut rest = all;
    let mut out: Vec<Cs2Process> = Vec::new();
    assert(process_rows(out@).to_multiset() =~= Multiset::empty());
    assert(rows.subrange(0, rows.len() as int) =~= rows);
    while rest.len() > 0
        invariant
            target@ == game_exe(),
            sorted_by_pid(process_rows(out@)),
            process_rows(rest@) == rows.subrange(0, rest@.len() as int),
            rest@.len() <= rows.len(),
            process_rows(out@).to_multiset().add(game_processes(process_rows(rest@)).to_multiset())
                == game_processes(rows).to_multiset(),
        decreases rest@.len(),
    {
        let ghost before = process_rows(rest@);
        let ghost out_before = process_rows(out@).to_multiset();
        let x = rest.pop().unwrap();
        let name = chars_of(x.name.as_str());
        let keep = chars_eq_ignore_ascii_case(&name, &target);
        proof {
            assert(before.drop_last() =~= process_rows(rest@));
            assert(before.last() == x.row());
            assert(process_rows(rest@) =~= rows.subrange(0, rest@.len() as int));
        }
        if keep {
            insert_by_pid(&mut out, x);
            proof {
                let g = game_processes(process_rows(rest@));
                g.to_multiset_ensures();
                assert(game_processes(before) == g.push(x.row()));
                assert(g.push(x.row()).to_multiset() =~= g.to_multiset().insert(x.row()));
                assert(process_rows(out@).to_multiset().add(g.to_multiset()) =~= out_before.add(
                    g.push(x.row()).to_multiset(),
                ));
            }
        } else {
            proof {
                assert(game_processes(before) =~= game_processes(process_rows(rest@)));
            }
        }
    }
    assert(game_processes(process_rows(rest@)) =~= Seq::<ProcessRow>::empty());
    assert(process_rows(out@).to_multiset() =~= game_processes(rows).to_multiset());
    proof {
        let sel = process_rows(out@);
        assert forall|i: int|
            0 <= i < rows.len() && eq_ignore_ascii_case(
                (#[trigger] rows[i]).1,
                seq!['c', 's', '2', '.', 'e', 'x', 'e'],
            ) implies sel.contains(rows[i]) by {
            law_selection_keeps_every_game_process(rows, sel, i);
        }
        assert forall|i: int|
            0 <= i < all_view.len() && eq_ignore_ascii_case(
                (#[trigger] all_view[i]).name@,
                seq!['c', 's', '2', '.', 'e', 'x', 'e'],
            ) implies sel.contains(all_view[i].row()) by {
            assert(rows[i] == all_view[i].row());
        }
        assert forall|j: int| 0 <= j < out@.len() implies eq_ignore_ascii_case(
            (#[trigger] out@[j]).name@,
            seq!['c', 's', '2', '.', 'e', 'x', 'e'],
        ) by {
            assert(sel[j] == out@[j].row());
            law_selected_processes_are_the_game(rows, sel, j);
        }
    }
    out
}

/// The pieces of `s` between occurrences of `c`, given the piece `cur` being
/// built when `s` starts, as `str::split` yields them (empty pieces
/// included).
pub open spec fn split_from(s: Seq<char>, c: char, cur: Seq<char>) -> Seq<Seq<char>>
    decreases s.len(),
{
    if s.len() == 0 {
        seq![cur]
    } else if s[0] == c {
        seq![cur] + split_from(s.drop_first(), c, seq![])
    } else {
        split_from(s.drop_first(), c, cur.push(s[0]))
    }
}

/// The pieces of `s` between occurrences of `c`.
pub open spec fn split_on(s: Seq<char>, c: char) -> Seq<Seq<char>> {
    split_from(s, c, seq![])
}

/// `s` with each pair of backslashes, read left to right, turned into one.
pub open spec fn unescape(s: Seq<char>) -> Seq<char>
    decreases s.len(),
{
    if s.len() == 0 {
        seq![]
    } else if s.len() >= 2 && s[0] == '\\' && s[1] == '\\' {
        seq!['\\'] + unescape(s.subrange(2, s.len() as int))
    } else {
        seq![s[0]] + unescape(s.drop_first())
    }
}

/// The key of a library folder line in `libraryfolders.vdf`: `"path"`.
pub open spec fn path_key() -> Seq<char> {
    seq!['"', 'p', 'a', 't', 'h', '"']
}

/// The library folder that a line of `libraryfolders.vdf` names: for a line
/// that, trimmed, starts with `"path"`, the fourth `"`-separated piece with
/// doubled backslashes undone.
pub open spec fn line_library_path(line: Seq<char>) -> Option<Seq<char>> {
    let t = trim(line);
    if t.len() >= 6 && t.subrange(0, 6) == path_key() && split_on(t, '"').len() > 3 {
        Some(unescape(split_on(t, '"')[3]))
    } else {
        None
    }
}

/// The library folders named by lines, in order.
pub open spec fn library_paths(lines: Seq<Seq<char>>) -> Seq<Seq<char>>
    decreases lines.len(),
{
    if lines.len() == 0 {
        seq![]
    } else {
        library_paths(lines.drop_last()) + match line_library_path(lines.last()) {
            Some(p) => seq![p],
            None => Seq::<Seq<char>>::empty(),
        }
    }
}

proof fn lemma_split_step(s: Seq<char>, i: int, c: char, cur: Seq<char>)
    requires
        0 <= i < s.len(),
    ensures
        split_from(s.subrange(i, s.len() as int), c, cur) == (if s[i] == c {
            seq![cur] + split_from(s.subrange(i + 1, s.len() as int), c, seq![])
        } else {
            split_from(s.subrange(i + 1, s.len() as int), c, cur.push(s[i]))
        }),
{
    let t = s.subrange(i, s.len() as int);
    assert(t[0] == s[i]);
    assert(t.drop_first() =~= s.subrange(i + 1, s.len() as int));
}

/// Splits characters at each occurrence of `c`.
fn split_chars(s: &Vec<char>, c: char) -> (r: Vec<Vec<char>>)
    ensures
        r.deep_view() == split_on(s@, c),
{
    let n = s.len();
    let mut out: Vec<Vec<char>> = Vec::new();
    let mut cur: Vec<char> = Vec::new();
    let mut i: usize = 0;
    assert(s@.subrange(0, n as int) =~= s@);
    while i < n
        invariant
            n == s@.len(),
            i <= n,
            out.deep_view() + split_from(s@.subrange(i as int, n as int), c, cur@) == split_on(s@, c),
        decreases n - i,
    {
        proof {
            lemma_split_step(s@, i as int, c, cur@);
        }
        if s[i] == c {
            let ghost rest = split_from(s@.subrange(i + 1, n as int), c, seq![]);
            let ghost before = out.deep_view();
            let ghost piece = cur@;
            assert(cur.deep_view() =~= piece);
            out.push(cur);
            cur = Vec::new();
            assert(out.deep_view() =~= before.push(piece));
            assert(before + (seq![piece] + rest) =~= before.push(piece) + rest);
        } else {
            cur.push(s[i]);
        }
        i = i + 1;
    }
    assert(s@.subrange(n as int, n as int) =~= Seq::<char>::empty());
    let ghost before = out.deep_view();
    let ghost piece = cur@;
    assert(cur.deep_view() =~= piece);
    out.push(cur);
    assert(out.deep_view() =~= before + seq![piece]);
    out
}

/// Undoes doubled backslashes, as `replace("\\\\", "\\")` does.
fn unescape_chars(s: &Vec<char>) -> (r: Vec<char>)
    ensures
        r@ == unescape(s@),
{
    let n = s.len();
    let mut out: Vec<char> = Vec::new();
    let mut i: usize = 0;
    assert(s@.subrange(0, n as int) =~= s@);
    while i < n
        invariant
            n == s@.len(),
            i <= n,
            out@ + unescape(s@.subrange(i as int, n as int)) == unescape(s@),
        decreases n - i,
    {
        let ghost t = s@.subrange(i as int, n as int);
        if i + 1 < n && s[i] == '\\' && s[i + 1] == '\\' {
            assert(t[0] == '\\' && t[1] == '\\');
            assert(t.subrange(2, t.len() as int) =~= s@.subrange(i + 2, n as int));
            let ghost before = out@;
            out.push('\\');
            assert(before + (seq!['\\'] + unescape(s@.subrange(i + 2, n as int))) =~= out@ + unescape(
                s@.subrange(i + 2, n as int),
            ));
            i = i + 2;
        } else {
            assert(t[0] == s@[i as int]);
            assert(!(t.len() >= 2 && t[0] == '\\' && t[1] == '\\'));
            assert(t.drop_first() =~= s@.subrange(i + 1, n as int));
            let ghost before = out@;
            out.push(s[i]);
            assert(before + (seq![s@[i as int]] + unescape(s@.subrange(i + 1, n as int))) =~= out@
                + unescape(s@.subrange(i + 1, n as int)));
            i = i + 1;
        }
    }
    assert(s@.subrange(n as int, n as int) =~= Seq::<char>::empty());
    assert(out@ + Seq::<char>::empty() =~= out@);
    out
}

/// The library folder named by one line, if it names one.
fn line_path(line: &Vec<char>) -> (r: Option<Vec<char>>)
    ensures
        match line_library_path(line@) {
            Some(p) => r matches Some(v) && v@ == p,
            None => r is None,
        },
{
    let t = trim_chars(line);
    let key: Vec<char> = vec!['"', 'p', 'a', 't', 'h', '"'];
    assert(key@ =~= path_key());
    if t.len() < 6 {
        return None;
    }
    let mut k: usize = 0;
    while k < 6
        invariant
            k <= 6 <= t@.len(),
            t@ == trim(line@),
            key@ == path_key(),
            forall|j: int| 0 <= j < k ==> t@[j] == key@[j],
        decreases 6 - k,
    {
        if t[k] != key[k] {
            assert(t@.subrange(0, 6)[k as int] != path_key()[k as int]);
            return None;
        }
        k = k + 1;
    }
    assert(t@.subrange(0, 6) =~= path_key());
    let pieces = split_chars(&t, '"');
    if pieces.len() <= 3 {
        return None;
    }
    assert(pieces@[3]@ =~= pieces.deep_view()[3]);
    Some(unescape_chars(&pieces[3]))
}

/// Reads the library folders listed in the text of a Steam
/// `libraryfolders.vdf`: each line that, trimmed, starts with `"path"` names
/// the folder in its fourth `"`-separated piece, with doubled backslashes
/// undone.
pub fn parse_steam_library_folders(contents: &str) -> (r: Vec<String>)
    ensures
        r.deep_view() == library_paths(split_on(contents@, '\n')),
{
    let chars = chars_of(contents);
    let lines = split_chars(&chars, '\n');
    let ghost line_views = lines.deep_view();
    let n = lines.len();
    let mut out: Vec<String> = Vec::new();
    let mut i: usize = 0;
    while i < n
        invariant
            n == lines@.len(),
            line_views == lines.deep_view(),
            i <= n,
            out.deep_view() == library_paths(line_views.subrange(0, i as int)),
        decreases n - i,
    {
        let ghost before = out.deep_view();
        let found = line_path(&lines[i]);
        proof {
            let next = line_views.subrange(0, i + 1);
            assert(next.drop_last() =~= line_views.subrange(0, i as int));
            assert(next.last() =~= lines@[i as int]@);
        }
        match found {
            Some(p) => {
                let ghost pv = p@;
                out.push(string_from_chars(p));
                assert(out.deep_view() =~= before + seq![pv]);
            },
            None => {
                assert(before + Seq::<Seq<char>>::empty() =~= before);
            },
        }
        i = i + 1;
    }
    assert(line_views.subrange(0, n as int) =~= line_views);
    out
}


proof fn lemma_game_processes(rows: Seq<ProcessRow>)
    ensures
        forall|i: int|
            0 <= i < game_processes(rows).len() ==> is_game_process(#[trigger] game_processes(rows)[i]),
    decreases rows.len(),
{
    if rows.len() > 0 {
        lemma_game_processes(rows.drop_last());
        let prev = game_processes(rows.drop_last());
        let tail = if is_game_process(rows.last()) {
            seq![rows.last()]
        } else {
            Seq::<ProcessRow>::empty()
        };
        assert forall|i: int| 0 <= i < (prev + tail).len() implies is_game_process(#[trigger] (prev + tail)[i]) by {
            if i >= prev.len() {
                assert((prev + tail)[i] == tail[i - prev.len()]);
            }
        }
    }
}

/// Process selection: every process that `select_cs2_processes` keeps is
/// named `cs2.exe` without regard to ASCII case.
pub proof fn law_selected_processes_are_the_game(all: Seq<ProcessRow>, selected: Seq<ProcessRow>, i: int)
    requires
        selected.to_multiset() == game_processes(all).to_multiset(),
        0 <= i < selected.len(),
    ensures
        is_game_process(selected[i]),
        eq_ignore_ascii_case(selected[i].1, seq!['c', 's', '2', '.', 'e', 'x', 'e']),
{
    broadcast use vstd::seq_lib::group_to_multiset_ensures;

    let g = game_processes(all);
    lemma_game_processes(all);
    assert(game_exe() =~= seq!['c', 's', '2', '.', 'e', 'x', 'e']);
    assert(selected.contains(selected[i]));
    assert(selected.to_multiset().count(selected[i]) > 0);
    assert(g.contains(selected[i]));
}


proof fn lemma_game_processes_contains(rows: Seq<ProcessRow>, i: int)
    requires
        0 <= i < rows.len(),
        eq_ignore_ascii_case(rows[i].1, seq!['c', 's', '2', '.', 'e', 'x', 'e']),
    ensures
        game_processes(rows).contains(rows[i]),
    decreases rows.len(),
{
    let prev = game_processes(rows.drop_last());
    assert(game_exe() =~= seq!['c', 's', '2', '.', 'e', 'x', 'e']);
    if i == rows.len() - 1 {
        assert(is_game_process(rows.last()));
        assert(game_processes(rows) == prev.push(rows.last()));
        assert(game_processes(rows)[prev.len() as int] == rows[i]);
    } else {
        assert(rows.drop_last()[i] == rows[i]);
        lemma_game_processes_contains(rows.drop_last(), i);
        let w = choose|w: int| 0 <= w < prev.len() && prev[w] == rows[i];
        let tail = if is_game_process(rows.last()) {
            seq![rows.last()]
        } else {
            Seq::<ProcessRow>::empty()
        };
        assert((prev + tail)[w] == rows[i]);
    }
}

/// Process selection is complete: every process whose name equals
/// `cs2.exe` without regard to ASCII case is selected, whatever its pid or
/// executable path.
pub proof fn law_selection_keeps_every_game_process(all: Seq<ProcessRow>, selected: Seq<ProcessRow>, i: int)
    requires
        selected.to_multiset() == game_processes(all).to_multiset(),
        0 <= i < all.len(),
        eq_ignore_ascii_case(all[i].1, seq!['c', 's', '2', '.', 'e', 'x', 'e']),
    ensures
        selected.contains(all[i]),
{
    broadcast use vstd::seq_lib::group_to_multiset_ensures;

    lemma_game_processes_contains(all, i);
    assert(game_processes(all).to_multiset().count(all[i]) > 0);
    assert(selected.to_multiset().count(all[i]) > 0);
}

} // verus!
