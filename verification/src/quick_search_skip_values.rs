use vstd::prelude::*;
use crate::automata::NFAH;
use crate::automata::has_word;
use crate::label::Symbol;

verus! {

/// A word over letters paired with variables, by its letters' characters.
pub type LabelWord = Seq<(Seq<char>, usize)>;

/// The letters of `w` read by the variable `var`, in order.
pub open spec fn project_letters(w: LabelWord, var: nat) -> Seq<Seq<char>>
    decreases w.len(),
{
    if w.len() == 0 {
        Seq::empty()
    } else {
        let rest = project_letters(w.drop_last(), var);
        if w.last().1 == var {
            rest.push(w.last().0)
        } else {
            rest
        }
    }
}

/// Restriction of a word over letters paired with variables to one variable.
pub trait VectorWithVer<T> {
    /// The letters read by `variable`, in order.
    fn project(&self, variable: usize) -> Vec<T>;
}

impl VectorWithVer<String> for Vec<(String, usize)> {
    fn project(&self, variable: usize) -> (r: Vec<String>)
        ensures
            r.deep_view() == project_letters(self.deep_view(), variable as nat),
    {
        let mut r: Vec<String> = Vec::new();
        for i in 0..self.len()
            invariant
                r.deep_view() == project_letters(self.deep_view().take(i as int), variable as nat),
        {
            proof {
                assert(self.deep_view().take(i + 1).drop_last() =~= self.deep_view().take(i as int));
            }
            let ghost before = r.deep_view();
            if self[i].1 == variable {
                r.push(self[i].0.clone());
                assert(r.deep_view() =~= before.push(self[i as int].0@));
            }
        }
        assert(self.deep_view().take(self.len() as int) =~= self.deep_view());
        r
    }
}

/// The smallest number of letters read by `var` in the words of `ps`; 0
/// when there is no word.
pub open spec fn min_projected_len(ps: Seq<LabelWord>, var: nat) -> nat
    decreases ps.len(),
{
    if ps.len() == 0 {
        0
    } else if ps.len() == 1 {
        project_letters(ps[0], var).len()
    } else {
        let m = min_projected_len(ps.drop_last(), var);
        let l = project_letters(ps.last(), var).len();
        if l < m {
            l
        } else {
            m
        }
    }
}

/// The skip table after scanning one word from its `len`-th letter
/// backwards, from offset `i`: a letter not in the table yet gets the
/// offset plus one and ends the scan; a letter in the table keeps the
/// smaller of its value and the offset plus one.
pub open spec fn scan_word(table: Map<Seq<char>, nat>, w: Seq<Seq<char>>, len: nat, i: nat) -> Map<Seq<char>, nat>
    decreases len - i,
{
    if i >= len {
        table
    } else {
        let key = w[len - 1 - i];
        if !table.contains_key(key) {
            table.insert(key, i + 1)
        } else {
            let t = if table[key] > i + 1 {
                table.insert(key, i + 1)
            } else {
                table
            };
            scan_word(t, w, len, i + 1)
        }
    }
}

/// The skip table after scanning the words of `words` in order.
pub open spec fn skip_table(words: Seq<Seq<Seq<char>>>, len: nat) -> Map<Seq<char>, nat>
    decreases words.len(),
{
    if words.len() == 0 {
        Map::empty()
    } else {
        scan_word(skip_table(words.drop_last(), len), words.last(), len, 0)
    }
}

/// The letters read by `var` in each word of `ps`.
pub open spec fn projected_words(ps: Seq<LabelWord>, var: nat) -> Seq<Seq<Seq<char>>> {
    ps.map_values(|p: LabelWord| project_letters(p, var))
}

/// The map given by a list of distinct keys with their values.
pub open spec fn table_of(entries: Seq<(String, usize)>) -> Map<Seq<char>, nat> {
    Map::new(
        |k: Seq<char>| exists|i: int| 0 <= i < entries.len() && (#[trigger] entries[i]).0@ == k,
        |k: Seq<char>| {
            let i = choose|i: int| 0 <= i < entries.len() && (#[trigger] entries[i]).0@ == k;
            entries[i].1 as nat
        },
    )
}

/// Each key appears once.
pub open spec fn keys_unique(entries: Seq<(String, usize)>) -> bool {
    forall|i: int, j: int| 0 <= i < j < entries.len() ==> entries[i].0@ != entries[j].0@
}

/// Quick-Search-style skip values of an automaton over letters paired
/// with variables, computed from the words of the length of its shortest
/// accepted word that label a run from an initial state.
pub struct QuickSearchSkipValues {
    /// For each variable, the smallest number of letters it reads in those words.
    pub shortest_accepted_word_length_map: Vec<usize>,
    /// For each variable, the letters found at that position, each once.
    pub last_accepted_word: Vec<Vec<String>>,
    /// For each variable, its letters with their skip values, each letter once.
    pub skip_values_map: Vec<Vec<(String, usize)>>,
}

/// The position of `key` among the keys of `entries`.
fn find_key(entries: &Vec<(String, usize)>, key: &String) -> (r: Option<usize>)
    ensures
        match r {
            Some(i) => i < entries@.len() && entries@[i as int].0@ == key@,
            None => forall|i: int| 0 <= i < entries@.len() ==> (#[trigger] entries@[i]).0@ != key@,
        },
{
    for i in 0..entries.len()
        invariant
            forall|j: int| 0 <= j < i ==> (#[trigger] entries@[j]).0@ != key@,
    {
        if entries[i].0 == *key {
            return Some(i);
        }
    }
    None
}


/// A projection has at most as many letters as the word.
pub proof fn lemma_project_len(w: LabelWord, var: nat)
    ensures
        project_letters(w, var).len() <= w.len(),
    decreases w.len(),
{
    if w.len() > 0 {
        lemma_project_len(w.drop_last(), var);
    }
}

/// The smallest projected length is at most that of each word.
pub proof fn lemma_min_projected_len(ps: Seq<LabelWord>, var: nat, j: int)
    requires
        0 <= j < ps.len(),
    ensures
        min_projected_len(ps, var) <= project_letters(ps[j], var).len(),
    decreases ps.len(),
{
    if ps.len() > 1 && j < ps.len() - 1 {
        lemma_min_projected_len(ps.drop_last(), var, j);
    }
}

/// The smallest projected length is that of some word, when there is one.
proof fn lemma_min_projected_attained(ps: Seq<LabelWord>, var: nat)
    requires
        ps.len() > 0,
    ensures
        exists|j: int| 0 <= j < ps.len() && min_projected_len(ps, var) == project_letters(#[trigger] ps[j], var).len(),
    decreases ps.len(),
{
    if ps.len() > 1 {
        lemma_min_projected_attained(ps.drop_last(), var);
        let j = choose|j: int| 0 <= j < ps.drop_last().len() && min_projected_len(ps.drop_last(), var)
            == project_letters(#[trigger] ps.drop_last()[j], var).len();
        assert(ps.drop_last()[j] == ps[j]);
        assert(ps.last() == ps[ps.len() - 1]);
    } else {
        assert(ps[0] == ps[0]);
    }
}

/// The length recorded for a variable is the smallest number of letters
/// it reads in the words the values were computed from: no word gives it
/// fewer, and some word gives it exactly that many.
pub proof fn lemma_shortest_length_is_min(r: QuickSearchSkipValues, ps: Seq<LabelWord>, var: int)
    requires
        r.describes(ps),
        0 <= var < r.num_tables(),
    ensures
        forall|j: int| 0 <= j < ps.len() ==> r.shortest_accepted_word_length_map@[var] <= project_letters(#[trigger] ps[j], var as nat).len(),
        ps.len() > 0 ==> exists|j: int| 0 <= j < ps.len()
            && r.shortest_accepted_word_length_map@[var] == project_letters(#[trigger] ps[j], var as nat).len(),
{
    assert(r.shortest_accepted_word_length_map@[var] == min_projected_len(ps, var as nat));
    assert forall|j: int| 0 <= j < ps.len() implies r.shortest_accepted_word_length_map@[var] <= project_letters(#[trigger] ps[j], var as nat).len() by {
        lemma_min_projected_len(ps, var as nat, j);
    }
    if ps.len() > 0 {
        lemma_min_projected_attained(ps, var as nat);
    }
}

/// Adding an entry with a new key inserts it in the map.
proof fn lemma_table_push(entries: Seq<(String, usize)>, e: (String, usize))
    requires
        keys_unique(entries),
        forall|i: int| 0 <= i < entries.len() ==> (#[trigger] entries[i]).0@ != e.0@,
    ensures
        keys_unique(entries.push(e)),
        table_of(entries.push(e)) == table_of(entries).insert(e.0@, e.1 as nat),
{
    let n = entries.push(e);
    assert forall|k: Seq<char>| #[trigger] table_of(n).contains_key(k) <==> table_of(entries).insert(e.0@, e.1 as nat).contains_key(k) by {
        if exists|i: int| 0 <= i < n.len() && (#[trigger] n[i]).0@ == k {
            let i = choose|i: int| 0 <= i < n.len() && (#[trigger] n[i]).0@ == k;
            if i < entries.len() {
                assert(entries[i].0@ == k);
            }
        }
        if exists|i: int| 0 <= i < entries.len() && (#[trigger] entries[i]).0@ == k {
            let i = choose|i: int| 0 <= i < entries.len() && (#[trigger] entries[i]).0@ == k;
            assert(n[i].0@ == k);
        }
        if k == e.0@ {
            assert(n[entries.len() as int].0@ == k);
        }
    }
    assert forall|k: Seq<char>| #[trigger] table_of(n).contains_key(k) implies table_of(n)[k] == table_of(entries).insert(e.0@, e.1 as nat)[k] by {
        let i = choose|i: int| 0 <= i < n.len() && (#[trigger] n[i]).0@ == k;
        if k == e.0@ {
            assert(i == entries.len());
        } else {
            assert(i < entries.len());
            let i2 = choose|i2: int| 0 <= i2 < entries.len() && (#[trigger] entries[i2]).0@ == k;
            assert(n[i2].0@ == k);
        }
    }
    assert(table_of(n) =~= table_of(entries).insert(e.0@, e.1 as nat));
}

/// Replacing the entry of a key changes its value in the map.
proof fn lemma_table_update(entries: Seq<(String, usize)>, j: int, e: (String, usize))
    requires
        keys_unique(entries),
        0 <= j < entries.len(),
        entries[j].0@ == e.0@,
    ensures
        keys_unique(entries.update(j, e)),
        table_of(entries.update(j, e)) == table_of(entries).insert(e.0@, e.1 as nat),
{
    let n = entries.update(j, e);
    assert forall|k: Seq<char>| #[trigger] table_of(n).contains_key(k) <==> table_of(entries).insert(e.0@, e.1 as nat).contains_key(k) by {
        if exists|i: int| 0 <= i < n.len() && (#[trigger] n[i]).0@ == k {
            let i = choose|i: int| 0 <= i < n.len() && (#[trigger] n[i]).0@ == k;
            assert(entries[i].0@ == k);
        }
        if exists|i: int| 0 <= i < entries.len() && (#[trigger] entries[i]).0@ == k {
            let i = choose|i: int| 0 <= i < entries.len() && (#[trigger] entries[i]).0@ == k;
            assert(n[i].0@ == k);
        }
    }
    assert forall|k: Seq<char>| #[trigger] table_of(n).contains_key(k) implies table_of(n)[k] == table_of(entries).insert(e.0@, e.1 as nat)[k] by {
        let i = choose|i: int| 0 <= i < n.len() && (#[trigger] n[i]).0@ == k;
        if k == e.0@ {
            assert(i == j);
        } else {
            let i2 = choose|i2: int| 0 <= i2 < entries.len() && (#[trigger] entries[i2]).0@ == k;
            assert(i2 != j);
            assert(i == i2);
        }
    }
    assert(table_of(n) =~= table_of(entries).insert(e.0@, e.1 as nat));
}

/// Scans `w` backwards from its `len`-th letter into `table`.
fn scan(table: &mut Vec<(String, usize)>, w: &Vec<String>, len: usize)
    requires
        keys_unique(old(table)@),
        len <= w@.len(),
        len < usize::MAX,
    ensures
        keys_unique(final(table)@),
        table_of(final(table)@) == scan_word(table_of(old(table)@), w.deep_view(), len as nat, 0),
{
    let ghost target = scan_word(table_of(old(table)@), w.deep_view(), len as nat, 0);
    let mut i: usize = 0;
    let mut done = false;
    while i < len && !done
        invariant
            keys_unique(table@),
            len <= w@.len(),
            len < usize::MAX,
            i <= len,
            done ==> table_of(table@) == target,
            !done ==> scan_word(table_of(table@), w.deep_view(), len as nat, i as nat) == target,
        decreases len - i,
    {
        let key = &w[len - 1 - i];
        assert(w.deep_view()[len - 1 - i] == key@);
        match find_key(table, key) {
            None => {
                proof {
                    assert(!table_of(table@).contains_key(key@)) by {
                        if table_of(table@).contains_key(key@) {
                            let m = choose|m: int| 0 <= m < table@.len() && (#[trigger] table@[m]).0@ == key@;
                        }
                    }
                }
                let entry = (key.clone(), i + 1);
                let ghost t0 = table_of(table@);
                proof {
                    lemma_table_push(table@, entry);
                    assert(scan_word(t0, w.deep_view(), len as nat, i as nat) == t0.insert(key@, (i + 1) as nat));
                    assert(entry.0@ == key@);
                }
                table.push(entry);
                done = true;
            },
            Some(j) => {
                proof {
                    assert(table_of(table@).contains_key(key@));
                    let m = choose|m: int| 0 <= m < table@.len() && (#[trigger] table@[m]).0@ == key@;
                    assert(m == j);
                    assert(table_of(table@)[key@] == table@[j as int].1);
                }
                if table[j].1 > i + 1 {
                    let entry = (key.clone(), i + 1);
                    proof {
                        lemma_table_update(table@, j as int, entry);
                    }
                    table.set(j, entry);
                }
            },
        }
        i = i + 1;
    }
}


/// The smallest number of letters read by `var` in the words of `ps`.
fn shortest_projected_len(ps: &Vec<Vec<(String, usize)>>, var: usize) -> (r: usize)
    ensures
        r == min_projected_len(ps.deep_view(), var as nat),
{
    let mut best: usize = 0;
    for i in 0..ps.len()
        invariant
            best == min_projected_len(ps.deep_view().take(i as int), var as nat),
    {
        let l = ps[i].project(var).len();
        proof {
            let t = ps.deep_view().take(i + 1);
            assert(t.drop_last() =~= ps.deep_view().take(i as int));
            assert(t.last() == ps[i as int].deep_view());
            if i == 0 {
                assert(t.len() == 1 && t[0] == ps[0].deep_view());
            }
        }
        if i == 0 || l < best {
            best = l;
        }
    }
    assert(ps.deep_view().take(ps.len() as int) =~= ps.deep_view());
    best
}

/// Some string of `v` has the characters `x`.
pub open spec fn has_string(v: Seq<String>, x: Seq<char>) -> bool {
    exists|k: int| 0 <= k < v.len() && (#[trigger] v[k])@ == x
}

/// Whether some string of `v` equals `x`.
pub(crate) fn contains_string(v: &Vec<String>, x: &String) -> (r: bool)
    ensures
        r == has_string(v@, x@),
{
    for k in 0..v.len()
        invariant
            forall|j: int| 0 <= j < k ==> (#[trigger] v@[j])@ != x@,
    {
        if v[k] == *x {
            return true;
        }
    }
    false
}

/// The letters found at position `m - 1` of the projections on `var` of
/// the words of `ps`, each once; none when `m` is 0.
fn letters_at(ps: &Vec<Vec<(String, usize)>>, var: usize, m: usize) -> (r: Vec<String>)
    requires
        forall|j: int| 0 <= j < ps@.len() ==> m <= project_letters(#[trigger] ps.deep_view()[j], var as nat).len(),
    ensures
        forall|x: Seq<char>| #[trigger] has_string(r@, x) <==> (m > 0 && exists|j: int|
            0 <= j < ps@.len() && project_letters(#[trigger] ps.deep_view()[j], var as nat)[m - 1] == x),
        forall|a: int, b: int| 0 <= a < b < r@.len() ==> r@[a]@ != r@[b]@,
{
    let mut r: Vec<String> = Vec::new();
    if m == 0 {
        return r;
    }
    for i in 0..ps.len()
        invariant
            m > 0,
            forall|j: int| 0 <= j < ps@.len() ==> m <= project_letters(#[trigger] ps.deep_view()[j], var as nat).len(),
            forall|x: Seq<char>| #[trigger] has_string(r@, x) <==> exists|j: int|
                0 <= j < i && project_letters(#[trigger] ps.deep_view()[j], var as nat)[m - 1] == x,
            forall|a: int, b: int| 0 <= a < b < r@.len() ==> r@[a]@ != r@[b]@,
    {
        let w = ps[i].project(var);
        proof {
            assert(ps.deep_view()[i as int] == ps[i as int].deep_view());
            assert(m <= project_letters(ps.deep_view()[i as int], var as nat).len());
        }
        let letter = w[m - 1].clone();
        assert(letter@ == project_letters(ps.deep_view()[i as int], var as nat)[m - 1]);
        let ghost before = r@;
        if !contains_string(&r, &letter) {
            r.push(letter);
        }
        proof {
            assert forall|x: Seq<char>| #[trigger] has_string(r@, x) <==> exists|j: int|
                0 <= j < i + 1 && project_letters(#[trigger] ps.deep_view()[j], var as nat)[m - 1] == x by {
                if has_string(r@, x) {
                    let k = choose|k: int| 0 <= k < r@.len() && (#[trigger] r@[k])@ == x;
                    if k < before.len() {
                        assert(before[k] == r@[k]);
                        assert(has_string(before, x));
                    }
                }
                if exists|j: int| 0 <= j < i + 1 && project_letters(#[trigger] ps.deep_view()[j], var as nat)[m - 1] == x {
                    let j = choose|j: int| 0 <= j < i + 1 && project_letters(#[trigger] ps.deep_view()[j], var as nat)[m - 1] == x;
                    if j < i {
                        assert(has_string(before, x));
                        let k = choose|k: int| 0 <= k < before.len() && (#[trigger] before[k])@ == x;
                        assert(r@[k] == before[k]);
                    } else if r@.len() > before.len() {
                        assert(r@[r@.len() - 1]@ == x);
                    } else {
                        assert(has_string(before, x));
                    }
                }
            }
            assert forall|a: int, b: int| 0 <= a < b < r@.len() implies r@[a]@ != r@[b]@ by {
                if b == before.len() {
                    if r@[a]@ == r@[b]@ {
                        assert(before[a] == r@[a]);
                        assert(has_string(before, letter@));
                    }
                }
            }
        }
    }
    r
}


/// Every value of a table scanned from one with values in `1..=len` is in `1..=len`.
proof fn lemma_scan_word_range(table: Map<Seq<char>, nat>, w: Seq<Seq<char>>, len: nat, i: nat)
    requires
        forall|k: Seq<char>| table.contains_key(k) ==> 1 <= #[trigger] table[k] <= len,
    ensures
        forall|k: Seq<char>| scan_word(table, w, len, i).contains_key(k) ==> 1 <= #[trigger] scan_word(table, w, len, i)[k] <= len,
    decreases len - i,
{
    if i < len {
        let key = w[len - 1 - i];
        if table.contains_key(key) {
            let t = if table[key] > i + 1 {
                table.insert(key, i + 1)
            } else {
                table
            };
            lemma_scan_word_range(t, w, len, i + 1);
            assert(scan_word(table, w, len, i) == scan_word(t, w, len, i + 1));
        } else {
            assert(scan_word(table, w, len, i) == table.insert(key, i + 1));
        }
    } else {
        assert(scan_word(table, w, len, i) == table);
    }
}

/// Every skip value lies between 1 and the length the words are scanned
/// from: a skip always moves forward, and by no more than that length.
pub proof fn lemma_skip_table_range(words: Seq<Seq<Seq<char>>>, len: nat)
    ensures
        forall|k: Seq<char>| skip_table(words, len).contains_key(k) ==> 1 <= #[trigger] skip_table(words, len)[k] <= len,
    decreases words.len(),
{
    if words.len() > 0 {
        lemma_skip_table_range(words.drop_last(), len);
        lemma_scan_word_range(skip_table(words.drop_last(), len), words.last(), len, 0);
    }
}

/// The letter of `w` at offset `k` back from its `len`-th letter.
pub open spec fn letter_at_offset(w: Seq<Seq<char>>, len: nat, k: nat) -> Seq<char> {
    w[len - 1 - k]
}

/// Scanning never drops a letter and never raises its value.
proof fn lemma_scan_word_lowers(table: Map<Seq<char>, nat>, w: Seq<Seq<char>>, len: nat, i: nat)
    ensures
        forall|x: Seq<char>| #[trigger] table.contains_key(x) ==> scan_word(table, w, len, i).contains_key(x)
            && scan_word(table, w, len, i)[x] <= table[x],
    decreases len - i,
{
    if i < len {
        let key = w[len - 1 - i];
        if table.contains_key(key) {
            let t = if table[key] > i + 1 {
                table.insert(key, i + 1)
            } else {
                table
            };
            lemma_scan_word_lowers(t, w, len, i + 1);
            assert forall|x: Seq<char>| #[trigger] table.contains_key(x) implies scan_word(table, w, len, i).contains_key(x)
                && scan_word(table, w, len, i)[x] <= table[x] by {
                assert(t.contains_key(x) && t[x] <= table[x]);
            }
        }
    }
}

/// When the letters at the offsets `i..k` of `w` are all in the table, the
/// scan from offset `i` reaches offset `k`, and the letter there ends with
/// a value of at most `k + 1`.
proof fn lemma_scan_word_reaches(table: Map<Seq<char>, nat>, w: Seq<Seq<char>>, len: nat, i: nat, k: nat)
    requires
        i <= k < len,
        forall|m: nat| i <= m < k ==> table.contains_key(#[trigger] letter_at_offset(w, len, m)),
    ensures
        scan_word(table, w, len, i).contains_key(w[len - 1 - k]),
        scan_word(table, w, len, i)[w[len - 1 - k]] <= k + 1,
    decreases k - i,
{
    let key = w[len - 1 - i];
    if i == k {
        if table.contains_key(key) {
            let t = if table[key] > i + 1 {
                table.insert(key, i + 1)
            } else {
                table
            };
            lemma_scan_word_lowers(t, w, len, i + 1);
            assert(t.contains_key(key) && t[key] <= k + 1);
        }
    } else {
        assert(letter_at_offset(w, len, i) == key);
        assert(table.contains_key(key));
        let t = if table[key] > i + 1 {
            table.insert(key, i + 1)
        } else {
            table
        };
        assert forall|m: nat| i + 1 <= m < k implies t.contains_key(#[trigger] letter_at_offset(w, len, m)) by {
            assert(table.contains_key(letter_at_offset(w, len, m)));
        }
        lemma_scan_word_reaches(t, w, len, i + 1, k);
    }
}

/// Scanning more words never drops a letter and never raises its value.
proof fn lemma_skip_table_lowers(words: Seq<Seq<Seq<char>>>, len: nat, j: int)
    requires
        0 <= j <= words.len(),
    ensures
        forall|x: Seq<char>| #[trigger] skip_table(words.take(j), len).contains_key(x) ==> skip_table(words, len).contains_key(x)
            && skip_table(words, len)[x] <= skip_table(words.take(j), len)[x],
    decreases words.len() - j,
{
    if j < words.len() {
        let pre = words.drop_last();
        assert(pre.take(j) =~= words.take(j));
        lemma_skip_table_lowers(pre, len, j);
        lemma_scan_word_lowers(skip_table(pre, len), words.last(), len, 0);
    } else {
        assert(words.take(j) =~= words);
    }
}

/// The value a letter ends with is at most one more than the offset from
/// the end of the window at which it was met: the scan of the `j`-th word
/// reaches offset `k` when the letters before it, nearer the end, were
/// already in the table, and the value of the letter there is then at
/// most `k + 1`, whatever the later words.
pub proof fn lemma_skip_table_smallest(words: Seq<Seq<Seq<char>>>, len: nat, j: int, k: nat)
    requires
        0 <= j < words.len(),
        k < len,
        scan_reaches(words, len, j, k),
    ensures
        skip_table(words, len).contains_key(words[j][len - 1 - k]),
        skip_table(words, len)[words[j][len - 1 - k]] <= k + 1,
{
    let t = words.take(j + 1);
    assert(t.drop_last() =~= words.take(j));
    assert(t.last() == words[j]);
    lemma_scan_word_reaches(skip_table(words.take(j), len), words[j], len, 0, k);
    assert(skip_table(t, len) == scan_word(skip_table(words.take(j), len), words[j], len, 0));
    let x = words[j][len - 1 - k];
    assert(skip_table(t, len).contains_key(x));
    lemma_skip_table_lowers(words, len, j + 1);
    assert(skip_table(words, len).contains_key(x) && skip_table(words, len)[x] <= skip_table(t, len)[x]);
}

/// A letter that ends, within the window, the projection of some word has
/// skip value 1: the table of each variable maps the last letter of the
/// window of every shortest accepted word to 1.
pub proof fn lemma_last_letter_skip_one(r: QuickSearchSkipValues, ps: Seq<LabelWord>, var: int, j: int)
    requires
        r.describes(ps),
        0 <= var < r.num_tables(),
        0 <= j < ps.len(),
        r.shortest_accepted_word_length_map@[var] > 0,
    ensures
        r.table(var).contains_key(project_letters(ps[j], var as nat)[r.shortest_accepted_word_length_map@[var] - 1]),
        r.table(var)[project_letters(ps[j], var as nat)[r.shortest_accepted_word_length_map@[var] - 1]] == 1,
{
    let m = r.shortest_accepted_word_length_map@[var];
    let words = projected_words(ps, var as nat);
    assert(r.table(var) == skip_table(words, m as nat));
    assert(words[j] == project_letters(ps[j], var as nat));
    lemma_skip_table_smallest(words, m as nat, j, 0);
    lemma_skip_table_range(words, m as nat);
}

/// The scan of the `j`-th word reaches offset `k`: the letters at the
/// offsets before it, nearer the end of the window, were all in the table
/// built from the words before.
pub open spec fn scan_reaches(words: Seq<Seq<Seq<char>>>, len: nat, j: int, k: nat) -> bool {
    forall|m: nat| m < k ==> skip_table(words.take(j), len).contains_key(#[trigger] letter_at_offset(words[j], len, m))
}

/// Each letter of a table has as value one more than an offset, counted
/// from the end of the window, at which the scan of some word reached it:
/// with `lemma_skip_table_smallest`, the value is the smallest such offset
/// plus one, and a letter is in the table exactly when some scan reaches it.
pub proof fn lemma_skip_table_offsets(words: Seq<Seq<Seq<char>>>, len: nat)
    ensures
        forall|x: Seq<char>| #[trigger] skip_table(words, len).contains_key(x) ==> exists|j: int, k: nat|
            0 <= j < words.len() && k < len && #[trigger] letter_at_offset(words[j], len, k) == x
                && scan_reaches(words, len, j, k) && skip_table(words, len)[x] == k + 1,
    decreases words.len(),
{
    if words.len() > 0 {
        let pre = words.drop_last();
        let t0 = skip_table(pre, len);
        let last = words.len() - 1;
        lemma_skip_table_offsets(pre, len);
        lemma_scan_word_offsets(t0, words.last(), len, 0);
        assert(words.take(last) =~= pre);
        assert forall|x: Seq<char>| #[trigger] skip_table(words, len).contains_key(x) implies exists|j: int, k: nat|
            0 <= j < words.len() && k < len && #[trigger] letter_at_offset(words[j], len, k) == x
                && scan_reaches(words, len, j, k) && skip_table(words, len)[x] == k + 1 by {
            if t0.contains_key(x) && skip_table(words, len)[x] == t0[x] {
                let (j, k) = choose|j: int, k: nat| 0 <= j < pre.len() && k < len && #[trigger] letter_at_offset(pre[j], len, k) == x
                    && scan_reaches(pre, len, j, k) && t0[x] == k + 1;
                assert(words[j] == pre[j]);
                assert(pre.take(j) =~= words.take(j));
                assert(letter_at_offset(words[j], len, k) == x);
                assert(scan_reaches(words, len, j, k));
            } else {
                let k = choose|k: nat| k < len && #[trigger] letter_at_offset(words.last(), len, k) == x
                    && (forall|m: nat| m < k ==> t0.contains_key(#[trigger] letter_at_offset(words.last(), len, m)))
                    && skip_table(words, len)[x] == k + 1;
                assert(words[last] == words.last());
                assert(letter_at_offset(words[last], len, k) == x);
                assert(scan_reaches(words, len, last, k));
            }
        }
    }
}

/// A letter of the scanned table keeps its value, or takes one more than
/// an offset the scan reached with every letter before it in the table.
proof fn lemma_scan_word_offsets(table: Map<Seq<char>, nat>, w: Seq<Seq<char>>, len: nat, i: nat)
    ensures
        forall|x: Seq<char>| #[trigger] scan_word(table, w, len, i).contains_key(x) ==> (table.contains_key(x)
            && scan_word(table, w, len, i)[x] == table[x]) || exists|k: nat|
            i <= k < len && #[trigger] letter_at_offset(w, len, k) == x
                && (forall|m: nat| i <= m < k ==> table.contains_key(#[trigger] letter_at_offset(w, len, m)))
                && scan_word(table, w, len, i)[x] == k + 1,
    decreases len - i,
{
    if i < len {
        let key = w[len - 1 - i];
        assert(letter_at_offset(w, len, i) == key);
        if table.contains_key(key) {
            let t = if table[key] > i + 1 {
                table.insert(key, i + 1)
            } else {
                table
            };
            lemma_scan_word_offsets(t, w, len, i + 1);
            let res = scan_word(table, w, len, i);
            assert(res == scan_word(t, w, len, i + 1));
            assert forall|x: Seq<char>| #[trigger] res.contains_key(x) implies (table.contains_key(x)
                && res[x] == table[x]) || exists|k: nat| i <= k < len && #[trigger] letter_at_offset(w, len, k) == x
                    && (forall|m: nat| i <= m < k ==> table.contains_key(#[trigger] letter_at_offset(w, len, m)))
                    && res[x] == k + 1 by {
                if t.contains_key(x) && res[x] == t[x] {
                    if x == key && table[key] > i + 1 {
                        assert(letter_at_offset(w, len, i) == x && res[x] == i + 1);
                    }
                } else {
                    let k = choose|k: nat| i + 1 <= k < len && #[trigger] letter_at_offset(w, len, k) == x
                        && (forall|m: nat| i + 1 <= m < k ==> t.contains_key(#[trigger] letter_at_offset(w, len, m)))
                        && res[x] == k + 1;
                    assert forall|m: nat| i <= m < k implies table.contains_key(#[trigger] letter_at_offset(w, len, m)) by {
                        if m > i {
                            assert(t.contains_key(letter_at_offset(w, len, m)));
                        }
                    }
                }
            }
        } else {
            let res = scan_word(table, w, len, i);
            assert forall|x: Seq<char>| #[trigger] res.contains_key(x) implies (table.contains_key(x)
                && res[x] == table[x]) || exists|k: nat| i <= k < len && #[trigger] letter_at_offset(w, len, k) == x
                    && (forall|m: nat| i <= m < k ==> table.contains_key(#[trigger] letter_at_offset(w, len, m)))
                    && res[x] == k + 1 by {
                if x == key {
                    assert(letter_at_offset(w, len, i) == x && res[x] == i + 1);
                }
            }
        }
    }
}

/// `ps` lists, each once, the words of length `n` that label a run of
/// `autom` from an initial state.
pub open spec fn lists_prefixes(autom: NFAH, ps: Seq<LabelWord>, n: nat) -> bool {
    &&& forall|j: int| 0 <= j < ps.len() ==> (#[trigger] ps[j]).len() == n && autom.is_prefix(ps[j])
    &&& forall|w: LabelWord| w.len() == n && #[trigger] autom.is_prefix(w) ==> ps.contains(w)
    &&& forall|i: int, j: int| 0 <= i < j < ps.len() ==> ps[i] != ps[j]
}

/// `n` is the length of the shortest word `autom` accepts.
pub open spec fn is_shortest_accepted(autom: NFAH, n: nat) -> bool {
    autom.accepts_in(n) && forall|m: nat| m < n ==> !#[trigger] autom.accepts_in(m)
}

impl QuickSearchSkipValues {
    /// The number of variables that have a skip table.
    pub open spec fn num_tables(&self) -> nat {
        self.skip_values_map@.len()
    }

    /// The skip table of `var`: the skip value of each letter it holds.
    pub open spec fn table(&self, var: int) -> Map<Seq<char>, nat> {
        table_of(self.skip_values_map@[var]@)
    }

    /// One table and one length per variable; each length leaves room for
    /// the default skip; each table value lies in `1..=` the length.
    pub open spec fn wf(&self) -> bool {
        &&& self.skip_values_map@.len() == self.shortest_accepted_word_length_map@.len()
        &&& forall|v: int| 0 <= v < self.skip_values_map@.len() ==> keys_unique(#[trigger] self.skip_values_map@[v]@)
        &&& forall|v: int| 0 <= v < self.skip_values_map@.len() ==> #[trigger] self.shortest_accepted_word_length_map@[v] < usize::MAX
        &&& forall|v: int, k: Seq<char>| 0 <= v < self.skip_values_map@.len() && #[trigger] self.table(v).contains_key(k)
            ==> 1 <= self.table(v)[k] <= self.shortest_accepted_word_length_map@[v]
    }

    /// The values were computed from the words of `ps`, taken in that order.
    pub open spec fn describes(&self, ps: Seq<LabelWord>) -> bool {
        forall|var: int| 0 <= var < self.num_tables() ==> {
            let m = #[trigger] self.shortest_accepted_word_length_map@[var];
            &&& m == min_projected_len(ps, var as nat)
            &&& forall|x: Seq<char>| #[trigger] has_string(self.last_accepted_word@[var]@, x) <==> (m > 0
                && exists|j: int| 0 <= j < ps.len() && project_letters(#[trigger] ps[j], var as nat)[m - 1] == x)
            &&& forall|a: int, b: int| 0 <= a < b < self.last_accepted_word@[var]@.len()
                ==> self.last_accepted_word@[var]@[a]@ != self.last_accepted_word@[var]@[b]@
            &&& self.table(var) == skip_table(projected_words(ps, var as nat), m as nat)
        }
    }

    /// Builds the skip values of `autom` from the words of the length of
    /// its shortest accepted word that label a run from an initial state.
    /// Which letter a word contributes can depend on the order in which
    /// those words are taken; the values are those of some order of them.
    pub fn new(autom: &NFAH) -> (r: Self)
        requires
            autom.wf(),
            exists|n: nat| n < usize::MAX && #[trigger] autom.accepts_in(n),
        ensures
            r.wf(),
            r.num_tables() == autom.dimensions,
            r.shortest_accepted_word_length_map@.len() == autom.dimensions,
            r.last_accepted_word@.len() == autom.dimensions,
            exists|n: nat, ps: Seq<LabelWord>|
                #![trigger is_shortest_accepted(*autom, n), r.describes(ps)]
                is_shortest_accepted(*autom, n) && lists_prefixes(*autom, ps, n) && r.describes(ps),
    {
        let n = autom.shortest_accepted_word_length();
        proof {
            let b = choose|b: nat| b < usize::MAX && #[trigger] autom.accepts_in(b);
            assert(n <= b);
        }
        let ps = autom.accepted_prefixes(n);
        let ghost psv = ps.deep_view();
        proof {
            assert forall|j: int| 0 <= j < psv.len() implies (#[trigger] psv[j]).len() == n && autom.is_prefix(psv[j]) by {
                assert(psv[j] == ps@[j].deep_view());
            }
            assert forall|w: LabelWord| w.len() == n && #[trigger] autom.is_prefix(w) implies psv.contains(w) by {
                assert(has_word(ps@, w));
                let i = choose|i: int| 0 <= i < ps@.len() && (#[trigger] ps@[i]).deep_view() == w;
                assert(psv[i] == w);
            }
            assert forall|i: int, j: int| 0 <= i < j < psv.len() implies psv[i] != psv[j] by {
                assert(psv[i] == ps@[i].deep_view());
                assert(psv[j] == ps@[j].deep_view());
            }
        }
        let mut map: Vec<usize> = Vec::new();
        let mut last: Vec<Vec<String>> = Vec::new();
        let mut tables: Vec<Vec<(String, usize)>> = Vec::new();
        for var in 0..autom.dimensions
            invariant
                psv == ps.deep_view(),
                n < usize::MAX,
                forall|j: int| 0 <= j < psv.len() ==> (#[trigger] psv[j]).len() == n,
                map@.len() == var,
                last@.len() == var,
                tables@.len() == var,
                forall|v: int| 0 <= v < var ==> {
                    let m = #[trigger] map@[v];
                    &&& m == min_projected_len(psv, v as nat)
                    &&& m < usize::MAX
                    &&& forall|x: Seq<char>| #[trigger] has_string(last@[v]@, x) <==> (m > 0
                        && exists|j: int| 0 <= j < psv.len() && project_letters(#[trigger] psv[j], v as nat)[m - 1] == x)
                    &&& forall|a: int, b: int| 0 <= a < b < last@[v]@.len() ==> last@[v]@[a]@ != last@[v]@[b]@
                    &&& keys_unique(tables@[v]@)
                    &&& table_of(tables@[v]@) == skip_table(projected_words(psv, v as nat), m as nat)
                },
        {
            let m = shortest_projected_len(&ps, var);
            proof {
                if psv.len() > 0 {
                    lemma_min_projected_len(psv, var as nat, 0);
                    lemma_project_len(psv[0], var as nat);
                }
                assert forall|j: int| 0 <= j < ps@.len() implies m <= project_letters(#[trigger] ps.deep_view()[j], var as nat).len() by {
                    lemma_min_projected_len(psv, var as nat, j);
                }
            }
            let letters = letters_at(&ps, var, m);
            let mut table: Vec<(String, usize)> = Vec::new();
            for j in 0..ps.len()
                invariant
                    psv == ps.deep_view(),
                    m == min_projected_len(psv, var as nat),
                    m < usize::MAX,
                    keys_unique(table@),
                    table_of(table@) == skip_table(projected_words(psv.take(j as int), var as nat), m as nat),
            {
                let w = ps[j].project(var);
                proof {
                    assert(psv[j as int] == ps@[j as int].deep_view());
                    lemma_min_projected_len(psv, var as nat, j as int);
                    let pw = projected_words(psv.take(j + 1), var as nat);
                    assert(pw.drop_last() =~= projected_words(psv.take(j as int), var as nat));
                    assert(pw.last() == w.deep_view());
                }
                scan(&mut table, &w, m);
            }
            proof {
                assert(psv.take(ps.len() as int) =~= psv);
                assert(table_of(table@) =~= table_of(table@));
            }
            let ghost map0 = map@;
            let ghost last0 = last@;
            let ghost tables0 = tables@;
            map.push(m);
            last.push(letters);
            tables.push(table);
            proof {
                assert forall|v: int| 0 <= v < var + 1 implies {
                    let mv = #[trigger] map@[v];
                    &&& mv == min_projected_len(psv, v as nat)
                    &&& mv < usize::MAX
                    &&& forall|x: Seq<char>| #[trigger] has_string(last@[v]@, x) <==> (mv > 0
                        && exists|j: int| 0 <= j < psv.len() && project_letters(#[trigger] psv[j], v as nat)[mv - 1] == x)
                    &&& forall|a: int, b: int| 0 <= a < b < last@[v]@.len() ==> last@[v]@[a]@ != last@[v]@[b]@
                    &&& keys_unique(tables@[v]@)
                    &&& table_of(tables@[v]@) == skip_table(projected_words(psv, v as nat), mv as nat)
                } by {
                    if v < var {
                        assert(map@[v] == map0[v]);
                        assert(last@[v] == last0[v]);
                        assert(tables@[v] == tables0[v]);
                        assert(map0[v] == map0[v]);
                    } else {
                        assert(map@[v] == m);
                        assert(last@[v] == letters);
                        assert(tables@[v] == table);
                    }
                }
            }
        }
        let r = QuickSearchSkipValues {
            shortest_accepted_word_length_map: map,
            last_accepted_word: last,
            skip_values_map: tables,
        };
        proof {
            assert forall|v: int, k: Seq<char>| 0 <= v < r.skip_values_map@.len() && #[trigger] r.table(v).contains_key(k)
                implies 1 <= r.table(v)[k] <= r.shortest_accepted_word_length_map@[v] by {
                let m = map@[v];
                assert(m == map@[v]);
                lemma_skip_table_range(projected_words(psv, v as nat), m as nat);
            }
            assert forall|v: int| 0 <= v < r.skip_values_map@.len() implies keys_unique(#[trigger] r.skip_values_map@[v]@) by {
                assert(0 <= v < tables@.len());
                assert(0 <= v < map@.len());
                assert(map@[v] == min_projected_len(psv, v as nat));
                assert(keys_unique(tables@[v]@));
                assert(r.skip_values_map@[v] == tables@[v]);
            }
            assert forall|v: int| 0 <= v < r.skip_values_map@.len() implies #[trigger] r.shortest_accepted_word_length_map@[v] < usize::MAX by {
                assert(map@[v] == map@[v]);
            }
            assert(r.wf());
            assert(r.describes(psv));
            assert(is_shortest_accepted(*autom, n as nat));
        }
        r
    }

    /// How far a search window may move when `action` is the letter of
    /// `variable` just past it: the table's value, or the shortest length
    /// plus one for a letter the table does not hold.
    pub fn skip_value(&self, action: &str, variable: usize) -> (r: usize)
        requires
            self.wf(),
            variable < self.num_tables(),
        ensures
            r == (if self.table(variable as int).contains_key(action@) {
                self.table(variable as int)[action@] as int
            } else {
                self.shortest_accepted_word_length_map@[variable as int] + 1
            }),
            1 <= r <= self.shortest_accepted_word_length_map@[variable as int] + 1,
    {
        let key = action.to_owned();
        let entries = &self.skip_values_map[variable];
        match find_key(entries, &key) {
            Some(i) => {
                proof {
                    let v = variable as int;
                    assert(keys_unique(self.skip_values_map@[v]@));
                    assert(table_of(entries@).contains_key(key@));
                    let c = choose|c: int| 0 <= c < entries@.len() && (#[trigger] entries@[c]).0@ == key@;
                    assert(c == i);
                    assert(self.table(v).contains_key(key@));
                }
                entries[i].1
            },
            None => {
                proof {
                    if table_of(entries@).contains_key(key@) {
                        let c = choose|c: int| 0 <= c < entries@.len() && (#[trigger] entries@[c]).0@ == key@;
                    }
                }
                self.shortest_accepted_word_length_map[variable] + 1
            },
        }
    }
}

} // verus!
