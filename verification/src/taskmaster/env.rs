//! The environment a unit's command runs with: the inherited variables, overridden by the
//! `NAME=VALUE` entries of the unit's configuration.

use vstd::prelude::*;
use vstd::string::*;
use crate::text::{
    char_utf8_width, chars_of, is_white_space, lemma_utf8_len_at_least_len, lemma_utf8_len_concat,
    lemma_utf8_len_push, lemma_utf8_len_single, lemma_utf8_len_subrange_bound,
    lemma_utf8_len_take_monotone, lemma_utf8_width_bounds, utf8_len, utf8_width, white_space,
};
use vstd::utf8::{
    encode_scalar, encode_utf8, encode_utf8_first_scalar, encode_utf8_valid_utf8, is_char_boundary,
    pop_first_scalar,
};
use crate::pool::{
    Pool, distinct_names, inserted, lemma_inserted_distinct_if, lemma_inserted_map,
    lemma_position_of_map_values, lookup_map, position_of, lemma_position_of,
    lemma_inserted_map_values,
};
use crate::taskmaster::config::Config;

verus! {

/// Number of white space characters at the start of `s`.
pub open spec fn leading_ws(s: Seq<char>) -> nat
    decreases s.len(),
{
    if s.len() > 0 && is_white_space(s[0]) {
        1 + leading_ws(s.drop_first())
    } else {
        0
    }
}

/// Number of white space characters at the end of `s`.
pub open spec fn trailing_ws(s: Seq<char>) -> nat
    decreases s.len(),
{
    if s.len() > 0 && is_white_space(s.last()) {
        1 + trailing_ws(s.drop_last())
    } else {
        0
    }
}

/// `s` without its leading and trailing white space (what `str::trim` returns).
pub open spec fn trim(s: Seq<char>) -> Seq<char> {
    let a = s.skip(leading_ws(s) as int);
    a.take(a.len() - trailing_ws(a))
}

/// Character index of the first occurrence of `c` in `t`.
pub open spec fn find_char(t: Seq<char>, c: char) -> Option<int>
    decreases t.len(),
{
    if t.len() == 0 {
        None
    } else if t[0] == c {
        Some(0)
    } else {
        match find_char(t.drop_first(), c) {
            Some(i) => Some(i + 1),
            None => None,
        }
    }
}

/// The character position of `s` at which its UTF-8 encoding has exactly `b` bytes before it,
/// if there is one (that is, if byte `b` is a character boundary of `s`).
pub open spec fn char_index_at_byte(s: Seq<char>, b: int) -> Option<int>
    decreases s.len(),
{
    if b == 0 {
        Some(0)
    } else if s.len() == 0 || b < 0 {
        None
    } else {
        match char_index_at_byte(s.drop_first(), b - utf8_width(s[0])) {
            Some(m) => Some(m + 1),
            None => None,
        }
    }
}

/// The byte offset at which an entry is cut into name and value: the byte offset of the first
/// `=` within the trimmed entry, or the byte length of the whole entry when it holds none.
/// The offset is taken within the trimmed text and applied to the untrimmed one.
pub open spec fn entry_cut(s: Seq<char>) -> int {
    match find_char(trim(s), '=') {
        Some(k) => utf8_len(trim(s).take(k)),
        None => utf8_len(s),
    }
}

/// The `(name, value)` that an entry `s` of a unit's `env` list defines: `s` is cut at
/// `entry_cut(s)`; the name is what comes before the cut, the value is what follows the cut
/// minus its first character, when that character is one byte long, and empty otherwise.
/// `None` where the cut does not fall on a character boundary.
pub open spec fn env_entry(s: Seq<char>) -> Option<(Seq<char>, Seq<char>)> {
    match char_index_at_byte(s, entry_cut(s)) {
        Some(m) => {
            let rest = s.skip(m);
            let value = if rest.len() > 0 && utf8_width(rest[0]) == 1 {
                rest.skip(1)
            } else {
                Seq::<char>::empty()
            };
            Some((s.take(m), value))
        },
        None => None,
    }
}

proof fn lemma_leading_ws(s: Seq<char>, n: int)
    requires
        0 <= n <= s.len(),
        forall|j: int| 0 <= j < n ==> is_white_space(#[trigger] s[j]),
        n == s.len() || !is_white_space(s[n]),
    ensures
        leading_ws(s) == n,
    decreases n,
{
    if n > 0 {
        assert forall|j: int| 0 <= j < n - 1 implies is_white_space(#[trigger] s.drop_first()[j]) by {
            assert(s.drop_first()[j] == s[j + 1]);
        }
        lemma_leading_ws(s.drop_first(), n - 1);
    }
}

proof fn lemma_trailing_ws(s: Seq<char>, k: int)
    requires
        0 <= k <= s.len(),
        forall|j: int| s.len() - k <= j < s.len() ==> is_white_space(#[trigger] s[j]),
        k == s.len() || !is_white_space(s[s.len() - k - 1]),
    ensures
        trailing_ws(s) == k,
    decreases k,
{
    if k > 0 {
        let t = s.drop_last();
        assert forall|j: int| t.len() - (k - 1) <= j < t.len() implies is_white_space(
            #[trigger] t[j],
        ) by {
            assert(t[j] == s[j]);
        }
        lemma_trailing_ws(t, k - 1);
    }
}

proof fn lemma_find_char_some(t: Seq<char>, c: char, k: int)
    requires
        0 <= k < t.len(),
        t[k] == c,
        forall|j: int| 0 <= j < k ==> #[trigger] t[j] != c,
    ensures
        find_char(t, c) == Some(k),
    decreases k,
{
    if k > 0 {
        assert(t[0] != c);
        assert forall|j: int| 0 <= j < k - 1 implies #[trigger] t.drop_first()[j] != c by {
            assert(t.drop_first()[j] == t[j + 1]);
        }
        lemma_find_char_some(t.drop_first(), c, k - 1);
    }
}

proof fn lemma_find_char_none(t: Seq<char>, c: char)
    requires
        forall|j: int| 0 <= j < t.len() ==> #[trigger] t[j] != c,
    ensures
        find_char(t, c) is None,
    decreases t.len(),
{
    if t.len() > 0 {
        assert(t[0] != c);
        assert forall|j: int| 0 <= j < t.len() - 1 implies #[trigger] t.drop_first()[j] != c by {
            assert(t.drop_first()[j] == t[j + 1]);
        }
        lemma_find_char_none(t.drop_first(), c);
    }
}

proof fn lemma_utf8_len_take_first(s: Seq<char>, m: int)
    requires
        0 < m <= s.len(),
    ensures
        utf8_len(s.take(m)) == utf8_width(s[0]) + utf8_len(s.drop_first().take(m - 1)),
{
    assert(s.take(m) =~= seq![s[0]] + s.drop_first().take(m - 1));
    lemma_utf8_len_concat(seq![s[0]], s.drop_first().take(m - 1));
    lemma_utf8_len_single(s[0]);
}

proof fn lemma_char_index_at_byte_some(s: Seq<char>, m: int, b: int)
    requires
        0 <= m <= s.len(),
        utf8_len(s.take(m)) == b,
    ensures
        char_index_at_byte(s, b) == Some(m),
    decreases m,
{
    if m == 0 {
        assert(s.take(0) =~= Seq::<char>::empty());
        assert(utf8_len(Seq::<char>::empty()) == 0);
    } else {
        lemma_utf8_len_take_first(s, m);
        lemma_utf8_width_bounds(s[0]);
        lemma_utf8_len_at_least_len(s.drop_first().take(m - 1));
        lemma_char_index_at_byte_some(s.drop_first(), m - 1, b - utf8_width(s[0]));
    }
}

proof fn lemma_char_index_at_byte_none(s: Seq<char>, b: int)
    requires
        forall|m: int| 0 <= m <= s.len() ==> utf8_len(#[trigger] s.take(m)) != b,
    ensures
        char_index_at_byte(s, b) is None,
    decreases s.len(),
{
    assert(s.take(0) =~= Seq::<char>::empty());
    assert(utf8_len(s.take(0)) == 0);
    if s.len() > 0 && b >= 0 {
        let t = s.drop_first();
        let b2 = b - utf8_width(s[0]);
        assert forall|m: int| 0 <= m <= t.len() implies utf8_len(#[trigger] t.take(m)) != b2 by {
            lemma_utf8_len_take_first(s, m + 1);
            assert(s.drop_first().take(m) == t.take(m));
            assert(utf8_len(s.take(m + 1)) != b);
        }
        lemma_char_index_at_byte_none(t, b2);
    }
}

/// Splits an entry of a unit's `env` list into the variable's name and value.
/// `None` exactly where the entry's cut (see [`env_entry`]) is not a character boundary.
pub fn parse_env_entry(val: &str) -> (r: Option<(String, String)>)
    ensures
        match r {
            Some((k, v)) => env_entry(val@) == Some((k@, v@)),
            None => env_entry(val@) is None,
        },
        r is None <==> !is_char_boundary(encode_utf8(val@), entry_cut(val@)),
{
    proof {
        lemma_env_entry_refused_iff_not_boundary(val@);
    }
    let ghost s = val@;
    let v = chars_of(val);
    let n = v.len();
    // Leading white space.
    let mut lead: usize = 0;
    while lead < n && white_space(v[lead])
        invariant
            v@ == s,
            n == s.len(),
            lead <= n,
            forall|j: int| 0 <= j < lead ==> is_white_space(#[trigger] s[j]),
        decreases n - lead,
    {
        lead = lead + 1;
    }
    proof {
        lemma_leading_ws(s, lead as int);
    }
    // Trailing white space of what follows.
    let mut end: usize = n;
    while end > lead && white_space(v[end - 1])
        invariant
            v@ == s,
            n == s.len(),
            lead <= end <= n,
            forall|j: int| end <= j < n ==> is_white_space(#[trigger] s[j]),
        decreases end,
    {
        end = end - 1;
    }
    let ghost a = s.skip(lead as int);
    proof {
        assert forall|j: int| a.len() - (n - end) <= j < a.len() implies is_white_space(
            #[trigger] a[j],
        ) by {
            assert(a[j] == s[lead + j]);
        }
        if end > lead {
            assert(a[a.len() - (n - end) - 1] == s[end - 1]);
        }
        lemma_trailing_ws(a, (n - end) as int);
        assert(trim(s) =~= s.subrange(lead as int, end as int));
    }
    let ghost t = trim(s);
    // First '=' of the trimmed text.
    let mut j: usize = lead;
    while j < end && v[j] != '='
        invariant
            v@ == s,
            n == s.len(),
            lead <= j <= end <= n,
            t == s.subrange(lead as int, end as int),
            forall|i: int| lead <= i < j ==> #[trigger] s[i] != '=',
        decreases end - j,
    {
        j = j + 1;
    }
    let total = val.as_bytes().len();
    assert(total == utf8_len(s));
    let cut: usize;
    if j < end {
        proof {
            assert forall|i: int| 0 <= i < j - lead implies #[trigger] t[i] != '=' by {
                assert(t[i] == s[lead + i]);
            }
            lemma_find_char_some(t, '=', (j - lead) as int);
        }
        // Byte length of the trimmed text before the '='.
        let mut acc: usize = 0;
        let mut i: usize = lead;
        while i < j
            invariant
                v@ == s,
                n == s.len(),
                lead <= i <= j < end <= n,
                total == utf8_len(s),
                acc == utf8_len(s.subrange(lead as int, i as int)),
            decreases j - i,
        {
            proof {
                assert(s.subrange(lead as int, i + 1) =~= s.subrange(lead as int, i as int).push(
                    s[i as int],
                ));
                lemma_utf8_len_push(s.subrange(lead as int, i as int), s[i as int]);
                lemma_utf8_len_subrange_bound(s, lead as int, i + 1);
            }
            acc = acc + char_utf8_width(v[i]);
            i = i + 1;
        }
        assert(t.take((j - lead) as int) =~= s.subrange(lead as int, j as int));
        cut = acc;
    } else {
        proof {
            assert forall|i: int| 0 <= i < t.len() implies #[trigger] t[i] != '=' by {
                assert(t[i] == s[lead + i]);
            }
            lemma_find_char_none(t, '=');
        }
        cut = total;
    }
    assert(cut == entry_cut(s));
    // Character position of the cut.
    let mut m: usize = 0;
    let mut pos: usize = 0;
    proof {
        assert(s.take(0) =~= Seq::<char>::empty());
        assert(utf8_len(Seq::<char>::empty()) == 0);
    }
    while m < n && pos < cut
        invariant
            v@ == s,
            n == s.len(),
            m <= n,
            total == utf8_len(s),
            pos == utf8_len(s.take(m as int)),
            forall|i: int| 0 <= i < m ==> utf8_len(#[trigger] s.take(i)) < cut,
        decreases n - m,
    {
        proof {
            assert(s.take(m + 1) =~= s.take(m as int).push(s[m as int]));
            lemma_utf8_len_push(s.take(m as int), s[m as int]);
            lemma_utf8_len_subrange_bound(s, 0, m + 1);
            assert(s.subrange(0, m + 1) == s.take(m + 1));
        }
        pos = pos + char_utf8_width(v[m]);
        m = m + 1;
    }
    if pos != cut {
        proof {
            assert forall|i: int| 0 <= i <= s.len() implies utf8_len(#[trigger] s.take(i)) != cut by {
                if i > m {
                    lemma_utf8_len_take_monotone(s, m as int, i);
                }
                if m == n && i <= m {
                    if i < m {
                        lemma_utf8_len_take_monotone(s, i, m as int);
                    }
                }
            }
            lemma_char_index_at_byte_none(s, cut as int);
        }
        return None;
    }
    proof {
        lemma_char_index_at_byte_some(s, m as int, cut as int);
    }
    let key = String::from_str(val.substring_char(0, m));
    let value: String;
    if m < n && char_utf8_width(v[m]) == 1 {
        value = String::from_str(val.substring_char(m + 1, n));
        assert(s.skip(m as int).skip(1) =~= s.subrange(m + 1, n as int));
    } else {
        value = String::new();
    }
    assert(s.take(m as int) =~= s.subrange(0, m as int));
    Some((key, value))
}

} // verus!

verus! {

/// The views of a list of `(name, value)` string pairs.
pub open spec fn pair_views(v: Seq<(String, String)>) -> Seq<(Seq<char>, Seq<char>)> {
    v.map_values(|p: (String, String)| (p.0@, p.1@))
}

/// `m` after setting each `(name, value)` of `kvs`, from first to last.
pub open spec fn insert_all(m: Map<Seq<char>, Seq<char>>, kvs: Seq<(Seq<char>, Seq<char>)>) -> Map<
    Seq<char>,
    Seq<char>,
>
    decreases kvs.len(),
{
    if kvs.len() == 0 {
        m
    } else {
        insert_all(m, kvs.drop_last()).insert(kvs.last().0, kvs.last().1)
    }
}

/// Every entry of a unit's `env` list can be split (see [`env_entry`]).
pub open spec fn entries_split(entries: Seq<String>) -> bool {
    forall|i: int| 0 <= i < entries.len() ==> (#[trigger] env_entry(entries[i]@)) is Some
}

/// The `(name, value)` pairs that a unit's `env` list defines, in order.
pub open spec fn entry_pairs(entries: Seq<String>) -> Seq<(Seq<char>, Seq<char>)> {
    entries.map_values(|e: String| env_entry(e@)->0)
}

/// The environment of a unit's command: the inherited variables `inherited` (a later pair
/// overriding an earlier one of the same name), then the entries of its `env` list, each
/// overriding what came before it.
pub open spec fn command_env(inherited: Seq<(Seq<char>, Seq<char>)>, entries: Seq<String>) -> Map<
    Seq<char>,
    Seq<char>,
> {
    insert_all(insert_all(Map::empty(), inherited), entry_pairs(entries))
}

/// A set of environment variables: a name maps to a value.
pub struct EnvVars {
    vars: Pool<String>,
}

impl View for EnvVars {
    type V = Seq<(Seq<char>, Seq<char>)>;

    /// The variables in the order they were first set.
    closed spec fn view(&self) -> Seq<(Seq<char>, Seq<char>)> {
        self.vars@.map_values(|e: (Seq<char>, String)| (e.0, e.1@))
    }
}

/// The map that a list of variables denotes.
pub open spec fn env_map(s: Seq<(Seq<char>, Seq<char>)>) -> Map<Seq<char>, Seq<char>> {
    lookup_map(s)
}

impl EnvVars {
    /// No variables.
    pub fn new() -> (r: Self)
        ensures
            env_map(r@) == Map::<Seq<char>, Seq<char>>::empty(),
            r@.len() == 0,
    {
        let r = EnvVars { vars: Pool::new() };
        assert(r@ =~= Seq::<(Seq<char>, Seq<char>)>::empty());
        assert(env_map(r@) =~= Map::<Seq<char>, Seq<char>>::empty());
        r
    }

    /// Sets variable `name` to `value`.
    pub fn insert(&mut self, name: String, value: String)
        ensures
            env_map(final(self)@) == env_map(old(self)@).insert(name@, value@),
            distinct_names(old(self)@) ==> distinct_names(final(self)@),
    {
        let ghost s = self.vars@;
        self.vars.insert(name, value);
        proof {
            let g = |e: (Seq<char>, String)| (e.0, e.1@);
            lemma_inserted_map_values(s, g, name@, value);
            lemma_inserted_map(s.map_values(g), name@, value@);
            lemma_inserted_distinct_if(s.map_values(g), name@, value@);
        }
    }

    /// The value of variable `name`.
    pub fn get(&self, name: &str) -> (r: Option<&String>)
        ensures
            match r {
                Some(v) => env_map(self@).contains_key(name@) && env_map(self@)[name@] == v@,
                None => !env_map(self@).contains_key(name@),
            },
    {
        let ghost g = |e: (Seq<char>, String)| (e.0, e.1@);
        proof {
            lemma_position_of_map_values(self.vars@, g, name@);
            lemma_position_of(self.vars@, name@);
        }
        match self.vars.index_of(name) {
            Some(i) => Some(self.vars.value_at(i)),
            None => None,
        }
    }

    /// Number of variables.
    pub fn len(&self) -> (r: usize)
        ensures
            r == self@.len(),
    {
        self.vars.len()
    }

    /// The variables as `(name, value)` pairs, in the order they were first set.
    pub fn pairs(&self) -> (r: Vec<(String, String)>)
        ensures
            pair_views(r@) == self@,
    {
        let n = self.vars.len();
        let mut r: Vec<(String, String)> = Vec::new();
        let mut i: usize = 0;
        while i < n
            invariant
                n == self@.len(),
                i <= n,
                pair_views(r@) == self@.take(i as int),
            decreases n - i,
        {
            let k = self.vars.name_at(i).clone();
            let v = self.vars.value_at(i).clone();
            let ghost old_r = r@;
            r.push((k, v));
            proof {
                assert(self@[i as int] == (k@, v@));
                assert(pair_views(r@) =~= pair_views(old_r).push((k@, v@)));
                assert(self@.take(i + 1) =~= self@.take(i as int).push(self@[i as int]));
            }
            i = i + 1;
        }
        assert(self@.take(n as int) =~= self@);
        r
    }

    /// The variables of `pairs`, set in order: a later pair overrides an earlier one of the
    /// same name.
    pub fn from_pairs(pairs: &Vec<(String, String)>) -> (r: Self)
        ensures
            env_map(r@) == insert_all(Map::empty(), pair_views(pairs@)),
            distinct_names(r@),
    {
        let mut r = EnvVars::new();
        let n = pairs.len();
        let mut i: usize = 0;
        while i < n
            invariant
                n == pairs@.len(),
                i <= n,
                env_map(r@) == insert_all(Map::empty(), pair_views(pairs@).take(i as int)),
                distinct_names(r@),
            decreases n - i,
        {
            let k = pairs[i].0.clone();
            let v = pairs[i].1.clone();
            r.insert(k, v);
            proof {
                assert(pair_views(pairs@).take(i + 1).drop_last() =~= pair_views(pairs@).take(
                    i as int,
                ));
            }
            i = i + 1;
        }
        assert(pair_views(pairs@).take(n as int) =~= pair_views(pairs@));
        r
    }

    /// Sets, in order, the variables that the entries of a unit's `env` list define.
    pub fn apply_entries(&mut self, entries: &Vec<String>)
        requires
            entries_split(entries@),
        ensures
            env_map(final(self)@) == insert_all(env_map(old(self)@), entry_pairs(entries@)),
            distinct_names(old(self)@) ==> distinct_names(final(self)@),
    {
        let n = entries.len();
        let mut i: usize = 0;
        while i < n
            invariant
                n == entries@.len(),
                i <= n,
                entries_split(entries@),
                env_map(self@) == insert_all(env_map(old(self)@), entry_pairs(entries@).take(
                    i as int,
                )),
                distinct_names(old(self)@) ==> distinct_names(self@),
            decreases n - i,
        {
            assert(env_entry(entries@[i as int]@) is Some);
            match parse_env_entry(entries[i].as_str()) {
                Some((k, v)) => {
                    self.insert(k, v);
                },
                None => {},
            }
            proof {
                assert(entry_pairs(entries@).take(i + 1).drop_last() =~= entry_pairs(
                    entries@,
                ).take(i as int));
            }
            i = i + 1;
        }
        assert(entry_pairs(entries@).take(n as int) =~= entry_pairs(entries@));
    }
}

/// Whether every entry of a unit's `env` list can be split into a name and a value.
pub fn env_entries_split(entries: &Vec<String>) -> (r: bool)
    ensures
        r == entries_split(entries@),
{
    let n = entries.len();
    let mut i: usize = 0;
    while i < n
        invariant
            n == entries@.len(),
            i <= n,
            forall|j: int| 0 <= j < i ==> (#[trigger] env_entry(entries@[j]@)) is Some,
        decreases n - i,
    {
        if parse_env_entry(entries[i].as_str()).is_none() {
            return false;
        }
        i = i + 1;
    }
    true
}

/// The entries of the unit's `env` list; none when the configuration has no such list.
pub open spec fn config_entries(config: Config) -> Seq<String> {
    match config.env {
        Some(entries) => entries@,
        None => Seq::empty(),
    }
}

/// Whether the environment of a unit with configuration `config` can be built: each entry of
/// its `env` list, if it has one, can be split.
pub open spec fn env_ready(config: Config) -> bool {
    entries_split(config_entries(config))
}

/// Builds the environment of a unit's command: the inherited variables `inherited`, then the
/// unit's `env` entries, each overriding what came before it. A unit without an `env` list
/// gets the inherited variables.
pub fn build_env(config: &Config, inherited: &Vec<(String, String)>) -> (r: EnvVars)
    requires
        env_ready(*config),
    ensures
        env_map(r@) == command_env(pair_views(inherited@), config_entries(*config)),
        distinct_names(r@),
{
    let mut env = EnvVars::from_pairs(inherited);
    match &config.env {
        Some(entries) => {
            env.apply_entries(entries);
        },
        None => {
            assert(entry_pairs(Seq::<String>::empty()) =~= Seq::<(Seq<char>, Seq<char>)>::empty());
        },
    }
    env
}

/// Whether [`build_env`] can be called on `config`.
pub fn config_env_ready(config: &Config) -> (r: bool)
    ensures
        r == env_ready(*config),
{
    match &config.env {
        Some(entries) => env_entries_split(entries),
        None => {
            assert(entries_split(Seq::<String>::empty()));
            true
        },
    }
}

/// A unit without `env` entries runs with exactly the inherited variables.
pub proof fn lemma_no_entries_inherits(inherited: Seq<(Seq<char>, Seq<char>)>)
    ensures
        command_env(inherited, Seq::<String>::empty()) == insert_all(Map::empty(), inherited),
{
    assert(entry_pairs(Seq::<String>::empty()) =~= Seq::<(Seq<char>, Seq<char>)>::empty());
}

} // verus!

verus! {

proof fn lemma_leading_ws_bound(s: Seq<char>)
    ensures
        leading_ws(s) <= s.len(),
    decreases s.len(),
{
    if s.len() > 0 {
        lemma_leading_ws_bound(s.drop_first());
    }
}

proof fn lemma_trailing_ws_bound(s: Seq<char>, p: int)
    requires
        0 <= p < s.len(),
        !is_white_space(s[p]),
    ensures
        trailing_ws(s) <= s.len() - 1 - p,
    decreases s.len(),
{
    if s.len() > 0 && is_white_space(s.last()) {
        assert(p != s.len() - 1);
        assert(s.drop_last()[p] == s[p]);
        lemma_trailing_ws_bound(s.drop_last(), p);
    }
}

proof fn lemma_trailing_ws_le(s: Seq<char>)
    ensures
        trailing_ws(s) <= s.len(),
    decreases s.len(),
{
    if s.len() > 0 {
        lemma_trailing_ws_le(s.drop_last());
    }
}

/// The character `=` is not white space and is one byte long.
pub proof fn lemma_equals_sign()
    ensures
        !is_white_space('='),
        utf8_width('=') == 1,
{
    assert(('=' as u32) == 0x3d);
    lemma_utf8_width_bounds('=');
}

/// An entry `NAME=VALUE`, whose name holds no `=` and does not start with white space,
/// defines variable `NAME` with value `VALUE`.
pub proof fn lemma_env_entry_assignment(name: Seq<char>, value: Seq<char>)
    requires
        forall|i: int| 0 <= i < name.len() ==> #[trigger] name[i] != '=',
        name.len() > 0 ==> !is_white_space(name[0]),
    ensures
        env_entry(name + seq!['='] + value) == Some((name, value)),
{
    let s = name + seq!['='] + value;
    let kl = name.len() as int;
    lemma_equals_sign();
    assert(s[kl] == '=');
    assert(s[0] == if kl > 0 { name[0] } else { '=' });
    lemma_leading_ws(s, 0);
    assert(s.skip(0) =~= s);
    lemma_trailing_ws_bound(s, kl);
    let t = trim(s);
    assert(t == s.take(s.len() - trailing_ws(s)));
    assert forall|j: int| 0 <= j < kl implies #[trigger] t[j] != '=' by {
        assert(t[j] == s[j]);
        assert(s[j] == name[j]);
    }
    assert(t[kl] == s[kl]);
    lemma_find_char_some(t, '=', kl);
    assert(t.take(kl) =~= name);
    assert(s.take(kl) =~= name);
    lemma_char_index_at_byte_some(s, kl, utf8_len(name));
    let rest = s.skip(kl);
    assert(rest[0] == '=');
    assert(rest.skip(1) =~= value);
}

/// An entry holding no `=` defines a variable named by the whole entry, with an empty value.
pub proof fn lemma_env_entry_without_assignment(s: Seq<char>)
    requires
        forall|i: int| 0 <= i < s.len() ==> #[trigger] s[i] != '=',
    ensures
        env_entry(s) == Some((s, Seq::<char>::empty())),
{
    lemma_leading_ws_bound(s);
    let l = leading_ws(s) as int;
    let a = s.skip(l);
    lemma_trailing_ws_le(a);
    let t = trim(s);
    assert forall|j: int| 0 <= j < t.len() implies #[trigger] t[j] != '=' by {
        assert(t[j] == s[l + j]);
    }
    lemma_find_char_none(t, '=');
    assert(s.take(s.len() as int) =~= s);
    lemma_char_index_at_byte_some(s, s.len() as int, utf8_len(s));
    assert(s.skip(s.len() as int) =~= Seq::<char>::empty());
}

proof fn lemma_insert_all_untouched(
    m: Map<Seq<char>, Seq<char>>,
    kvs: Seq<(Seq<char>, Seq<char>)>,
    k: Seq<char>,
)
    requires
        forall|i: int| 0 <= i < kvs.len() ==> #[trigger] kvs[i].0 != k,
    ensures
        insert_all(m, kvs).contains_key(k) == m.contains_key(k),
        m.contains_key(k) ==> insert_all(m, kvs)[k] == m[k],
    decreases kvs.len(),
{
    if kvs.len() > 0 {
        assert(kvs[kvs.len() - 1].0 != k);
        assert forall|i: int| 0 <= i < kvs.drop_last().len() implies #[trigger] kvs.drop_last()[i].0
            != k by {
            assert(kvs.drop_last()[i] == kvs[i]);
        }
        lemma_insert_all_untouched(m, kvs.drop_last(), k);
    }
}

proof fn lemma_insert_all_last_wins(
    m: Map<Seq<char>, Seq<char>>,
    kvs: Seq<(Seq<char>, Seq<char>)>,
    i: int,
)
    requires
        0 <= i < kvs.len(),
        forall|j: int| i < j < kvs.len() ==> #[trigger] kvs[j].0 != kvs[i].0,
    ensures
        insert_all(m, kvs).contains_key(kvs[i].0),
        insert_all(m, kvs)[kvs[i].0] == kvs[i].1,
    decreases kvs.len(),
{
    if i < kvs.len() - 1 {
        assert(kvs[kvs.len() - 1].0 != kvs[i].0);
        let d = kvs.drop_last();
        assert(d[i] == kvs[i]);
        assert forall|j: int| i < j < d.len() implies #[trigger] d[j].0 != d[i].0 by {
            assert(d[j] == kvs[j]);
        }
        lemma_insert_all_last_wins(m, d, i);
    }
}

/// An inherited variable that no entry of the unit's `env` list names keeps its inherited
/// value (or stays absent).
pub proof fn lemma_inherited_variable_kept(
    inherited: Seq<(Seq<char>, Seq<char>)>,
    entries: Seq<String>,
    name: Seq<char>,
)
    requires
        forall|i: int| 0 <= i < entries.len() ==> #[trigger] entry_pairs(entries)[i].0 != name,
    ensures
        command_env(inherited, entries).contains_key(name) == insert_all(
            Map::empty(),
            inherited,
        ).contains_key(name),
        insert_all(Map::empty(), inherited).contains_key(name) ==> command_env(inherited, entries)[name]
            == insert_all(Map::empty(), inherited)[name],
{
    lemma_insert_all_untouched(insert_all(Map::empty(), inherited), entry_pairs(entries), name);
}

/// The last entry of the unit's `env` list that names a variable sets its value, whatever
/// was inherited or set before.
pub proof fn lemma_last_entry_wins(
    inherited: Seq<(Seq<char>, Seq<char>)>,
    entries: Seq<String>,
    i: int,
)
    requires
        0 <= i < entries.len(),
        forall|j: int|
            i < j < entries.len() ==> #[trigger] entry_pairs(entries)[j].0 != entry_pairs(
                entries,
            )[i].0,
    ensures
        command_env(inherited, entries).contains_key(entry_pairs(entries)[i].0),
        command_env(inherited, entries)[entry_pairs(entries)[i].0] == entry_pairs(entries)[i].1,
{
    lemma_insert_all_last_wins(insert_all(Map::empty(), inherited), entry_pairs(entries), i);
}

} // verus!

verus! {

/// A byte offset of a string is a character boundary of its UTF-8 encoding exactly when some
/// character position has that many bytes before it.
pub proof fn lemma_char_index_at_byte_is_boundary(s: Seq<char>, b: int)
    ensures
        is_char_boundary(encode_utf8(s), b) <==> char_index_at_byte(s, b) is Some,
    decreases s.len(),
{
    let bytes = encode_utf8(s);
    encode_utf8_valid_utf8(s);
    if b == 0 {
    } else if s.len() == 0 {
        assert(bytes =~= Seq::<u8>::empty());
    } else if b < 0 {
    } else {
        encode_utf8_first_scalar(s);
        let w = utf8_width(s[0]);
        assert(bytes =~= encode_scalar(s[0] as u32) + encode_utf8(s.drop_first()));
        assert(pop_first_scalar(bytes) =~= encode_utf8(s.drop_first()));
        lemma_char_index_at_byte_is_boundary(s.drop_first(), b - w);
        if bytes.len() < b {
            lemma_utf8_width_bounds(s[0]);
            // Past the end: no position of the rest has that many bytes before it.
            assert(char_index_at_byte(s.drop_first(), b - w) is None) by {
                assert forall|m: int| 0 <= m <= s.drop_first().len() implies utf8_len(
                    #[trigger] s.drop_first().take(m),
                ) != b - w by {
                    lemma_utf8_len_take_monotone(s.drop_first(), m, s.drop_first().len() as int);
                    assert(s.drop_first().take(s.drop_first().len() as int) =~= s.drop_first());
                }
                lemma_char_index_at_byte_none(s.drop_first(), b - w);
            }
        }
    }
}

/// A unit's `env` entry is refused exactly where `str::split_at` at the entry's cut would
/// fail: where the cut is not a character boundary of the entry's UTF-8 bytes.
pub proof fn lemma_env_entry_refused_iff_not_boundary(s: Seq<char>)
    ensures
        env_entry(s) is None <==> !is_char_boundary(encode_utf8(s), entry_cut(s)),
{
    lemma_char_index_at_byte_is_boundary(s, entry_cut(s));
}

} // verus!
