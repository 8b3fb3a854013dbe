//! The environment that a job sees: variables with the lines of their values,
//! and the parser of the text in which a shell prints them.
use vstd::prelude::*;
use crate::text::{chars_of, lemma_next_sep, next_sep, split_lines, split_lines_of, split_on, str_eq};
use crate::ci::job::inspection::utf8_len;
use vstd::string::StrSliceExecFns;

verus! {

/// Environment variables: each name with the lines of its value. A name
/// occurs once. It is held in a `Vec`: with a `String` key, vstd's
/// specification of `HashMap` states nothing of what the map holds, and the
/// order in which a `HashMap` is walked is left open, so neither could stand
/// in a contract.
#[derive(Debug)]
pub struct EnvMap {
    entries: Vec<(String, Vec<String>)>,
}

/// The names of a sequence of entries.
pub open spec fn entry_keys(e: Seq<(String, Vec<String>)>) -> Seq<Seq<char>> {
    e.map_values(|p: (String, Vec<String>)| p.0@)
}

/// A position of `k` among the entries' names.
pub open spec fn key_index(e: Seq<(String, Vec<String>)>, k: Seq<char>) -> int {
    choose|i: int| 0 <= i < e.len() && e[i].0@ == k
}

impl EnvMap {
    /// The variables' names, in the order in which they were first set.
    pub closed spec fn keys_view(&self) -> Seq<Seq<char>> {
        entry_keys(self.entries@)
    }

    /// Each variable's lines.
    pub closed spec fn map_view(&self) -> Map<Seq<char>, Seq<Seq<char>>> {
        Map::new(
            |k: Seq<char>| self.keys_view().contains(k),
            |k: Seq<char>| self.entries@[key_index(self.entries@, k)].1@.map_values(|s: String| s@),
        )
    }

    /// No name occurs twice.
    pub closed spec fn wf(&self) -> bool {
        self.keys_view().no_duplicates()
    }

    /// No variables.
    pub fn new() -> (r: EnvMap)
        ensures
            r.wf(),
            r.keys_view() == Seq::<Seq<char>>::empty(),
            r.map_view() == Map::<Seq<char>, Seq<Seq<char>>>::empty(),
    {
        let r = EnvMap { entries: Vec::new() };
        assert(r.map_view() =~= Map::<Seq<char>, Seq<Seq<char>>>::empty());
        r
    }

    /// The number of variables.
    pub fn len(&self) -> (r: usize)
        ensures
            r == self.keys_view().len(),
    {
        self.entries.len()
    }

    /// Whether there are no variables.
    pub fn is_empty(&self) -> (r: bool)
        ensures
            r == (self.keys_view().len() == 0),
    {
        self.entries.len() == 0
    }

    fn position(&self, key: &str) -> (r: Option<usize>)
        ensures
            match r {
                Some(i) => i < self.entries@.len() && self.entries@[i as int].0@ == key@,
                None => !self.keys_view().contains(key@),
            },
    {
        let mut i: usize = 0;
        while i < self.entries.len()
            invariant
                i <= self.entries.len(),
                forall|j: int| 0 <= j < i ==> self.entries@[j].0@ != key@,
            decreases self.entries.len() - i,
        {
            if str_eq(self.entries[i].0.as_str(), key) {
                return Some(i);
            }
            i = i + 1;
        }
        None
    }

    /// Each entry's lines are the lines of its name.
    proof fn lemma_value_at(&self, i: int)
        requires
            self.wf(),
            0 <= i < self.entries@.len(),
        ensures
            self.map_view().contains_key(self.entries@[i].0@),
            self.map_view()[self.entries@[i].0@] == self.entries@[i].1@.map_values(|s: String| s@),
    {
        let k = self.entries@[i].0@;
        assert(entry_keys(self.entries@)[i] == k);
        assert(self.entries@[i].0@ == k);
        let j = key_index(self.entries@, k);
        assert(entry_keys(self.entries@)[j] == k);
        if j != i {
            assert(entry_keys(self.entries@)[j] != entry_keys(self.entries@)[i]);
        }
        assert(self.keys_view().contains(k));
        assert(self.map_view().dom().contains(k));
        assert(self.map_view()[k] == self.entries@[j].1@.map_values(|s: String| s@));
    }

    /// Sets `key` to `value`: a new name comes last, a known one keeps its place.
    pub fn insert(&mut self, key: String, value: Vec<String>)
        requires
            old(self).wf(),
        ensures
            final(self).wf(),
            final(self).map_view() == old(self).map_view().insert(
                key@,
                value@.map_values(|s: String| s@),
            ),
            old(self).keys_view().contains(key@) ==> final(self).keys_view() == old(self).keys_view(),
            !old(self).keys_view().contains(key@) ==> final(self).keys_view() == old(self).keys_view().push(key@),
    {
        let ghost old_self = *self;
        let ghost old_entries = self.entries@;
        let ghost vv = value@.map_values(|s: String| s@);
        let ghost at: int;
        match self.position(key.as_str()) {
            Some(i) => {
                self.entries.set(i, (key, value));
                proof {
                    at = i as int;
                    assert(entry_keys(old_entries)[at] == key@);
                    assert(entry_keys(self.entries@) =~= entry_keys(old_entries));
                }
            },
            None => {
                self.entries.push((key, value));
                proof {
                    at = old_entries.len() as int;
                    assert(entry_keys(self.entries@) =~= entry_keys(old_entries).push(key@));
                    assert forall|a: int, b: int| 0 <= a < b < entry_keys(self.entries@).len()
                        implies entry_keys(self.entries@)[a] != entry_keys(self.entries@)[b] by {
                        if b == old_entries.len() {
                            assert(entry_keys(old_entries)[a] == entry_keys(self.entries@)[a]);
                        }
                    }
                }
            },
        }
        proof {
            assert(self.entries@[at].0@ == key@);
            assert(old_self.map_view() == old(self).map_view());
            let m = self.map_view();
            let m2 = old(self).map_view().insert(key@, vv);
            assert forall|k: Seq<char>| m.dom().contains(k) <==> m2.dom().contains(k) by {
                if m.dom().contains(k) {
                    let j = choose|j: int| 0 <= j < entry_keys(self.entries@).len() && entry_keys(self.entries@)[j] == k;
                    if j != at {
                        assert(entry_keys(old_entries)[j] == k);
                    }
                }
                if m2.dom().contains(k) && k != key@ {
                    let j = choose|j: int| 0 <= j < entry_keys(old_entries).len() && entry_keys(old_entries)[j] == k;
                    assert(entry_keys(self.entries@)[j] == k);
                }
                if k == key@ {
                    assert(entry_keys(self.entries@)[at] == k);
                }
            }
            assert forall|k: Seq<char>| #[trigger] m.dom().contains(k) implies m[k] == m2[k] by {
                let j = choose|j: int| 0 <= j < entry_keys(self.entries@).len() && entry_keys(self.entries@)[j] == k;
                self.lemma_value_at(j);
                if k != key@ {
                    assert(j != at);
                    assert(old_entries[j] == self.entries@[j]);
                    old_self.lemma_value_at(j);
                } else {
                    self.lemma_value_at(at);
                }
            }
            assert(m =~= m2);
        }
    }

    /// The lines of `key`, if it is set.
    pub fn get(&self, key: &str) -> (r: Option<&Vec<String>>)
        requires
            self.wf(),
        ensures
            match r {
                Some(v) => self.map_view().contains_key(key@) && self.map_view()[key@] == v@.map_values(|s: String| s@),
                None => !self.map_view().contains_key(key@),
            },
    {
        match self.position(key) {
            Some(i) => {
                proof {
                    let j = choose|j: int| 0 <= j < self.entries@.len() && self.entries@[j].0@ == key@;
                    assert(entry_keys(self.entries@)[j] == key@);
                    assert(entry_keys(self.entries@)[i as int] == key@);
                }
                Some(&self.entries[i].1)
            },
            None => None,
        }
    }

    /// The names, in order.
    pub fn keys(&self) -> (r: Vec<String>)
        ensures
            r@.map_values(|s: String| s@) == self.keys_view(),
    {
        let mut r: Vec<String> = Vec::new();
        let mut i: usize = 0;
        while i < self.entries.len()
            invariant
                i <= self.entries.len(),
                r@.map_values(|s: String| s@) =~= self.keys_view().take(i as int),
            decreases self.entries.len() - i,
        {
            let ghost before = r@;
            r.push(self.entries[i].0.clone());
            proof {
                assert(r@ =~= before.push(self.entries@[i as int].0));
                assert(self.keys_view().take(i + 1) =~= self.keys_view().take(i as int).push(self.keys_view()[i as int]));
            }
            i = i + 1;
        }
        assert(self.keys_view().take(self.entries.len() as int) =~= self.keys_view());
        r
    }

    /// The variables with their lines, in order.
    pub fn entries(&self) -> (r: &Vec<(String, Vec<String>)>)
        requires
            self.wf(),
        ensures
            entry_keys(r@) == self.keys_view(),
            forall|i: int| 0 <= i < r@.len() ==> self.map_view()[#[trigger] r@[i].0@] == r@[i].1@.map_values(|s: String| s@),
    {
        proof {
            assert forall|i: int| 0 <= i < self.entries@.len() implies self.map_view()[#[trigger] self.entries@[i].0@] == self.entries@[i].1@.map_values(|s: String| s@) by {
                assert(entry_keys(self.entries@)[i] == self.entries@[i].0@);
                let j = choose|j: int| 0 <= j < self.entries@.len() && self.entries@[j].0@ == self.entries@[i].0@;
                assert(entry_keys(self.entries@)[j] == entry_keys(self.entries@)[i]);
            }
        }
        &self.entries
    }
}

} // verus!

verus! {

/// The position among the characters of `s` at which byte `x` of its UTF-8
/// encoding starts a character, or the length when `x` is the end of the
/// text; none when byte `x` falls inside a character or past the end.
pub open spec fn char_at_byte(s: Seq<char>, x: int) -> Option<int>
    decreases s.len(),
{
    if x == 0 {
        Some(0)
    } else if x < 0 || s.len() == 0 || x < utf8_len(s[0]) {
        None
    } else {
        match char_at_byte(s.drop_first(), x - utf8_len(s[0])) {
            Some(k) => Some(k + 1),
            None => None,
        }
    }
}

/// A position found lies within the text.
proof fn lemma_char_at_byte_bound(s: Seq<char>, x: int)
    ensures
        char_at_byte(s, x) matches Some(i) ==> 0 <= i <= s.len(),
    decreases s.len(),
{
    if x != 0 && !(x < 0 || s.len() == 0 || x < utf8_len(s[0])) {
        lemma_char_at_byte_bound(s.drop_first(), x - utf8_len(s[0]));
    }
}

/// The text `&s[x..y]` that `str` slicing by byte offsets gives: the
/// characters from byte `x` to byte `y`; none where the slicing panics, with
/// an offset inside a character or past the end, or `x` after `y`.
pub open spec fn byte_slice(s: Seq<char>, x: int, y: int) -> Option<Seq<char>> {
    match char_at_byte(s, x) {
        Some(i) => match char_at_byte(s, y) {
            Some(j) => if i <= j { Some(s.subrange(i, j)) } else { None },
            None => None,
        },
        None => None,
    }
}

/// What the scan of an environment text holds after some characters: the
/// variable whose value is being read (none before the first `=`), where the
/// text after the last `=` starts, where the last line break is, and the
/// variables read so far. Positions count characters, and the text is cut at
/// them as at byte offsets (`byte_slice`).
pub type EnvScan = (Option<Seq<char>>, int, int, Map<Seq<char>, Seq<Seq<char>>>);

/// The scan after the first `n` characters of `s`; none once a cut falls
/// inside a character. At each `=`, the text between the last line break and
/// that `=` names the next variable, and the text from after the previous `=`
/// up to the last line break (split into lines, or no line when it is empty)
/// is the value of the previous variable.
pub open spec fn env_scan(s: Seq<char>, n: nat) -> Option<EnvScan>
    decreases n,
{
    if n == 0 {
        Some((None, 0, 0, Map::empty()))
    } else {
        match env_scan(s, (n - 1) as nat) {
            None => None,
            Some(prev) => {
                let pos = n - 1;
                if s[pos] == '=' {
                    match prev.0 {
                        None => match byte_slice(s, prev.1, pos) {
                            Some(key) => Some((Some(key), pos + 1, prev.2, prev.3)),
                            None => None,
                        },
                        Some(key) => {
                            let value = if prev.1 < prev.2 {
                                match byte_slice(s, prev.1, prev.2) {
                                    Some(v) => Some(split_lines(v)),
                                    None => None,
                                }
                            } else {
                                Some(Seq::empty())
                            };
                            match value {
                                Some(v) => match byte_slice(s, prev.2 + 1, pos) {
                                    Some(next) => Some((Some(next), pos + 1, prev.2, prev.3.insert(key, v))),
                                    None => None,
                                },
                                None => None,
                            }
                        },
                    }
                } else if s[pos] == '\n' {
                    Some((prev.0, prev.1, pos, prev.3))
                } else {
                    Some(prev)
                }
            },
        }
    }
}

/// The variables that the text `s` sets: those of the scan of the whole text,
/// and the last variable with the lines after its `=`; none where a cut falls
/// inside a character.
pub open spec fn parsed_env(s: Seq<char>) -> Option<Map<Seq<char>, Seq<Seq<char>>>> {
    match env_scan(s, s.len()) {
        None => None,
        Some(scan) => match scan.0 {
            Some(key) => match byte_slice(s, scan.1, s.len() as int) {
                Some(v) => Some(scan.3.insert(key, split_lines(v))),
                None => None,
            },
            None => Some(scan.3),
        },
    }
}

/// No piece of a split holds the separator.
proof fn lemma_split_on_no_sep(s: Seq<char>, sep: char)
    ensures
        forall|i: int| 0 <= i < split_on(s, sep).len() ==> !(#[trigger] split_on(s, sep)[i]).contains(sep),
    decreases s.len(),
{
    lemma_next_sep(s, sep, 0);
    let b = next_sep(s, sep, 0);
    let pieces = split_on(s, sep);
    if b < s.len() {
        let first = s.subrange(0, b);
        let rest = s.subrange(b + 1, s.len() as int);
        lemma_split_on_no_sep(rest, sep);
        assert(pieces == seq![first] + split_on(rest, sep));
        assert forall|i: int| 0 <= i < pieces.len() implies !(#[trigger] pieces[i]).contains(sep) by {
            if i == 0 {
                if first.contains(sep) {
                    let j = choose|j: int| 0 <= j < first.len() && first[j] == sep;
                    assert(s[j] == first[j]);
                }
            } else {
                assert(pieces[i] == split_on(rest, sep)[i - 1]);
            }
        }
    } else {
        assert(pieces == seq![s]);
        if s.contains(sep) {
            let j = choose|j: int| 0 <= j < s.len() && s[j] == sep;
        }
    }
}

/// Every value of `m` is a list of single lines: none of its elements holds
/// a line break.
pub open spec fn values_are_lines(m: Map<Seq<char>, Seq<Seq<char>>>) -> bool {
    forall|k: Seq<char>, i: int| m.contains_key(k) && 0 <= i < m[k].len() ==> !(#[trigger] m[k][i]).contains('\n')
}

/// The variables read so far hold single lines only.
proof fn lemma_scan_lines(s: Seq<char>, n: nat)
    ensures
        env_scan(s, n) matches Some(scan) ==> values_are_lines(scan.3),
    decreases n,
{
    if n > 0 {
        lemma_scan_lines(s, (n - 1) as nat);
        if let Some(prev) = env_scan(s, (n - 1) as nat) {
            if prev.1 < prev.2 {
                if let Some(v) = byte_slice(s, prev.1, prev.2) {
                    lemma_split_on_no_sep(v, '\n');
                }
            }
            if let Some(scan) = env_scan(s, n) {
                assert forall|k: Seq<char>, i: int| scan.3.contains_key(k) && 0 <= i < scan.3[k].len()
                    implies !(#[trigger] scan.3[k][i]).contains('\n') by {
                    if prev.3.contains_key(k) && scan.3[k] == prev.3[k] {
                    }
                }
            }
        }
    }
}

/// Every value read is a list of lines: for every variable, the last one of
/// the text included, no element of its value holds a line break; a value
/// running over several lines is split at its line breaks.
pub proof fn lemma_values_are_lines(s: Seq<char>)
    ensures
        parsed_env(s) matches Some(m) ==> values_are_lines(m),
{
    lemma_scan_lines(s, s.len());
    if let Some(scan) = env_scan(s, s.len()) {
        if let Some(key) = scan.0 {
            if let Some(v) = byte_slice(s, scan.1, s.len() as int) {
                lemma_split_on_no_sep(v, '\n');
                let m = scan.3.insert(key, split_lines(v));
                assert forall|k: Seq<char>, i: int| m.contains_key(k) && 0 <= i < m[k].len()
                    implies !(#[trigger] m[k][i]).contains('\n') by {
                    if k != key {
                        assert(m[k] == scan.3[k]);
                    }
                }
            }
        }
    }
}

proof fn lemma_env_scan_bounds(s: Seq<char>, n: nat)
    requires
        n <= s.len(),
    ensures
        env_scan(s, n) matches Some(scan) ==> {
            &&& 0 <= scan.1 <= n
            &&& 0 <= scan.2
            &&& n == 0 ==> scan.2 == 0
            &&& n > 0 ==> scan.2 < n
        },
    decreases n,
{
    if n > 0 {
        lemma_env_scan_bounds(s, (n - 1) as nat);
    }
}

/// Once a cut falls inside a character, the scan stays none.
proof fn lemma_env_scan_none(s: Seq<char>, n: nat, m: nat)
    requires
        n <= m,
        env_scan(s, n) is None,
    ensures
        env_scan(s, m) is None,
    decreases m - n,
{
    if n < m {
        lemma_env_scan_none(s, n, (m - 1) as nat);
    }
}

/// The number of bytes that UTF-8 takes for `c`.
fn char_width(c: char) -> (r: usize)
    ensures
        r == utf8_len(c),
        1 <= r <= 4,
{
    let v = c as u32;
    if v < 0x80 {
        1
    } else if v < 0x800 {
        2
    } else if v < 0x10000 {
        3
    } else {
        4
    }
}

/// Where byte `x` starts a character of `chars` (see `char_at_byte`).
fn char_at(chars: &Vec<char>, x: usize) -> (r: Option<usize>)
    ensures
        match char_at_byte(chars@, x as int) {
            Some(i) => r matches Some(k) && k == i,
            None => r is None,
        },
{
    proof {
        lemma_char_at_byte_bound(chars@, x as int);
        assert(chars@.skip(0) =~= chars@);
    }
    let mut k: usize = 0;
    let mut acc: usize = 0;
    while k < chars.len()
        invariant
            k <= chars.len(),
            acc <= x,
            char_at_byte(chars@, x as int) == match char_at_byte(chars@.skip(k as int), x - acc) {
                Some(i) => Some(i + k),
                None => None::<int>,
            },
        decreases chars.len() - k,
    {
        if acc == x {
            return Some(k);
        }
        let w = char_width(chars[k]);
        proof {
            let t = chars@.skip(k as int);
            assert(t[0] == chars@[k as int]);
            assert(t.drop_first() =~= chars@.skip(k + 1));
        }
        if w > x - acc {
            return None;
        }
        acc = acc + w;
        k = k + 1;
    }
    proof {
        assert(chars@.skip(k as int).len() == 0);
    }
    if acc == x {
        Some(k)
    } else {
        None
    }
}

/// The text `&text[x..y]`, cut at byte offsets (see `byte_slice`); none where
/// the cut falls inside a character.
fn byte_slice_of(text: &str, chars: &Vec<char>, x: usize, y: usize) -> (r: Option<String>)
    requires
        chars@ == text@,
    ensures
        match byte_slice(text@, x as int, y as int) {
            Some(t) => r matches Some(v) && v@ == t,
            None => r is None,
        },
{
    proof {
        lemma_char_at_byte_bound(text@, x as int);
        lemma_char_at_byte_bound(text@, y as int);
    }
    match char_at(chars, x) {
        Some(i) => match char_at(chars, y) {
            Some(j) => {
                if i <= j {
                    Some(text.substring_char(i, j).to_owned())
                } else {
                    None
                }
            },
            None => None,
        },
        None => None,
    }
}

/// Reads the variables that a shell printed as `NAME=value` lines; a value
/// may run over several lines. Positions count characters and the text is
/// cut at them as at byte offsets; none where such a cut falls inside a
/// character.
pub fn read_env(env_string: &str) -> (r: Option<EnvMap>)
    ensures
        match parsed_env(env_string@) {
            Some(m) => r matches Some(map) && map.wf() && map.map_view() == m,
            None => r is None,
        },
        r matches Some(map) ==> values_are_lines(map.map_view()),
{
    proof {
        lemma_values_are_lines(env_string@);
    }
    let chars = chars_of(env_string);
    let ghost s = env_string@;
    let mut pos: usize = 0;
    let mut last_symbol_start: usize = 0;
    let mut last_new_line: usize = 0;
    let mut capturing: Option<String> = None;
    let mut map = EnvMap::new();
    while pos < chars.len()
        invariant
            chars@ == s,
            s == env_string@,
            pos <= chars.len(),
            map.wf(),
            env_scan(s, pos as nat) == Some((
                match capturing {
                    Some(k) => Some(k@),
                    None => None::<Seq<char>>,
                },
                last_symbol_start as int,
                last_new_line as int,
                map.map_view(),
            )),
        decreases chars.len() - pos,
    {
        proof {
            lemma_env_scan_bounds(s, pos as nat);
        }
        let c = chars[pos];
        if c == '=' {
            match capturing {
                None => {
                    match byte_slice_of(env_string, &chars, last_symbol_start, pos) {
                        Some(key) => {
                            capturing = Some(key);
                            last_symbol_start = pos + 1;
                        },
                        None => {
                            proof {
                                lemma_env_scan_none(s, (pos + 1) as nat, s.len());
                            }
                            return None;
                        },
                    }
                },
                Some(key) => {
                    let value = if last_symbol_start < last_new_line {
                        match byte_slice_of(env_string, &chars, last_symbol_start, last_new_line) {
                            Some(text) => split_lines_of(text.as_str()),
                            None => {
                                proof {
                                    lemma_env_scan_none(s, (pos + 1) as nat, s.len());
                                }
                                return None;
                            },
                        }
                    } else {
                        let empty: Vec<String> = Vec::new();
                        assert(empty@.map_values(|x: String| x@) =~= Seq::<Seq<char>>::empty());
                        empty
                    };
                    match byte_slice_of(env_string, &chars, last_new_line + 1, pos) {
                        Some(next_key) => {
                            map.insert(key, value);
                            capturing = Some(next_key);
                            last_symbol_start = pos + 1;
                        },
                        None => {
                            proof {
                                lemma_env_scan_none(s, (pos + 1) as nat, s.len());
                            }
                            return None;
                        },
                    }
                },
            }
        } else if c == '\n' {
            last_new_line = pos;
        }
        pos = pos + 1;
    }
    proof {
        lemma_env_scan_bounds(s, pos as nat);
    }
    match capturing {
        Some(key) => {
            match byte_slice_of(env_string, &chars, last_symbol_start, pos) {
                Some(text) => {
                    map.insert(key, split_lines_of(text.as_str()));
                },
                None => {
                    return None;
                },
            }
        },
        None => {},
    }
    Some(map)
}

/// Reads the variables that a shell printed as `NAME=value` lines (see
/// `read_env`), for a text that no cut splits inside a character: where one
/// does, slicing the text panics.
pub fn parse_env_into_map(env_string: &str) -> (r: EnvMap)
    requires
        parsed_env(env_string@) is Some,
    ensures
        r.wf(),
        r.map_view() == parsed_env(env_string@).unwrap(),
        values_are_lines(r.map_view()),
{
    match read_env(env_string) {
        Some(map) => map,
        None => EnvMap::new(),
    }
}

} // verus!
