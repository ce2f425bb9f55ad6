use vstd::prelude::*;
use vstd::string::StrSliceExecFns;

verus! {

/// Severity of a log message, from the most to the least severe.
#[derive(Clone, Copy, Debug, PartialEq, Eq, Hash, PartialOrd, Ord)]
pub enum Level {
    Error,
    Warning,
    Info,
    Debug,
}

/// A level as given on the command line, where short aliases are accepted too.
#[derive(Clone, Copy, Debug, PartialEq, Eq, Hash, PartialOrd, Ord)]
pub struct RelaxedLevel(pub Level);

impl RelaxedLevel {
    /// The level this value stands for.
    pub fn level(&self) -> (r: Level)
        ensures
            r == self.0,
    {
        self.0
    }
}

/// Parses level names, accepting the short aliases of each level.
#[derive(Clone, Copy, Debug)]
pub struct LevelValueParser;

/// The levels in the order in which their aliases are tried.
pub open spec fn level_at(k: int) -> Level {
    if k == 0 {
        Level::Error
    } else if k == 1 {
        Level::Warning
    } else if k == 2 {
        Level::Info
    } else {
        Level::Debug
    }
}

/// The short names accepted for a level.
pub open spec fn aliases(l: Level) -> Seq<Seq<char>> {
    match l {
        Level::Error => seq![seq!['e', 'r', 'r'], seq!['e']],
        Level::Warning => seq![seq!['w', 'a', 'r', 'n'], seq!['w', 'r', 'n'], seq!['w']],
        Level::Info => seq![seq!['i', 'n', 'f'], seq!['i']],
        Level::Debug => seq![seq!['d', 'b', 'g'], seq!['d']],
    }
}

/// Whether `c` is an upper-case ASCII letter.
pub open spec fn is_ascii_upper(c: char) -> bool {
    65 <= c as u32 <= 90
}

/// Whether two characters are equal once ASCII letters are put in lower case.
pub open spec fn char_eq_ignore_ascii_case(a: char, b: char) -> bool {
    a == b || (is_ascii_upper(a) && a as u32 + 32 == b as u32) || (is_ascii_upper(b) && b as u32 + 32
        == a as u32)
}

/// Whether two texts are equal once ASCII letters are put in lower case.
pub open spec fn eq_ignore_ascii_case(a: Seq<char>, b: Seq<char>) -> bool {
    a.len() == b.len() && forall|i: int| 0 <= i < a.len() ==> char_eq_ignore_ascii_case(a[i], b[i])
}

/// Whether `v` is one of `names`, ignoring ASCII case.
pub open spec fn matches_any(v: Seq<char>, names: Seq<Seq<char>>) -> bool {
    exists|i: int| 0 <= i < names.len() && eq_ignore_ascii_case(v, #[trigger] names[i])
}

/// The first level, from the `k`-th on, that has `v` among its aliases.
pub open spec fn alias_level_from(v: Seq<char>, k: int) -> Option<Level>
    decreases 4 - k,
{
    if k >= 4 || k < 0 {
        None
    } else if matches_any(v, aliases(level_at(k))) {
        Some(level_at(k))
    } else {
        alias_level_from(v, k + 1)
    }
}

/// The level that `v` is an alias of, if any.
pub open spec fn alias_level(v: Seq<char>) -> Option<Level> {
    alias_level_from(v, 0)
}

fn char_eq_ic(a: char, b: char) -> (r: bool)
    ensures
        r == char_eq_ignore_ascii_case(a, b),
{
    let x = a as u32;
    let y = b as u32;
    x == y || (65 <= x && x <= 90 && x + 32 == y) || (65 <= y && y <= 90 && y + 32 == x)
}

/// Compares two texts, ignoring the case of ASCII letters.
pub fn str_eq_ignore_ascii_case(a: &str, b: &str) -> (r: bool)
    ensures
        r == eq_ignore_ascii_case(a@, b@),
{
    let n = a.unicode_len();
    if n != b.unicode_len() {
        return false;
    }
    let mut i: usize = 0;
    while i < n
        invariant
            n == a@.len(),
            n == b@.len(),
            i <= n,
            forall|t: int| 0 <= t < i ==> char_eq_ignore_ascii_case(a@[t], b@[t]),
        decreases n - i,
    {
        if !char_eq_ic(a.get_char(i), b.get_char(i)) {
            return false;
        }
        i = i + 1;
    }
    true
}

impl LevelValueParser {
    /// The short names accepted for each level, levels in the order they are tried.
    pub fn alternate_values() -> (r: Vec<(Level, Vec<&'static str>)>)
        ensures
            r@.len() == 4,
            forall|k: int|
                0 <= k < 4 ==> (#[trigger] r@[k]).0 == level_at(k) && r@[k].1@.len() == aliases(
                    level_at(k),
                ).len() && forall|t: int|
                    0 <= t < r@[k].1@.len() ==> (#[trigger] r@[k].1@[t])@ == aliases(level_at(k))[t],
    {
        let r = vec![
            (Level::Error, vec!["err", "e"]),
            (Level::Warning, vec!["warn", "wrn", "w"]),
            (Level::Info, vec!["inf", "i"]),
            (Level::Debug, vec!["dbg", "d"]),
        ];
        proof {
            reveal_strlit("err");
            reveal_strlit("e");
            reveal_strlit("warn");
            reveal_strlit("wrn");
            reveal_strlit("w");
            reveal_strlit("inf");
            reveal_strlit("i");
            reveal_strlit("dbg");
            reveal_strlit("d");
            assert("err"@ =~= seq!['e', 'r', 'r']);
            assert("e"@ =~= seq!['e']);
            assert("warn"@ =~= seq!['w', 'a', 'r', 'n']);
            assert("wrn"@ =~= seq!['w', 'r', 'n']);
            assert("w"@ =~= seq!['w']);
            assert("inf"@ =~= seq!['i', 'n', 'f']);
            assert("i"@ =~= seq!['i']);
            assert("dbg"@ =~= seq!['d', 'b', 'g']);
            assert("d"@ =~= seq!['d']);
        }
        r
    }

    /// The level that `value` is a short name of, ignoring ASCII case, if any.
    pub fn parse_alternate(value: &str) -> (r: Option<RelaxedLevel>)
        ensures
            match alias_level(value@) {
                Some(l) => r == Some(RelaxedLevel(l)),
                None => r is None,
            },
    {
        let values = Self::alternate_values();
        let mut k: usize = 0;
        while k < values.len()
            invariant
                values@.len() == 4,
                forall|q: int|
                    0 <= q < 4 ==> (#[trigger] values@[q]).0 == level_at(q) && values@[q].1@.len()
                        == aliases(level_at(q)).len() && forall|t: int|
                        0 <= t < values@[q].1@.len() ==> (#[trigger] values@[q].1@[t])@ == aliases(
                            level_at(q),
                        )[t],
                k <= 4,
                alias_level(value@) == alias_level_from(value@, k as int),
            decreases 4 - k,
        {
            let names = &values[k].1;
            let ghost al = aliases(level_at(k as int));
            let mut t: usize = 0;
            while t < names.len()
                invariant
                    k < 4,
                    values@.len() == 4,
                    values@[k as int].0 == level_at(k as int),
                    al == aliases(level_at(k as int)),
                    alias_level(value@) == alias_level_from(value@, k as int),
                    names@.len() == al.len(),
                    forall|u: int| 0 <= u < names@.len() ==> (#[trigger] names@[u])@ == al[u],
                    t <= names@.len(),
                    forall|u: int| 0 <= u < t ==> !eq_ignore_ascii_case(value@, #[trigger] al[u]),
                decreases names@.len() - t,
            {
                if str_eq_ignore_ascii_case(value, names[t]) {
                    assert(eq_ignore_ascii_case(value@, al[t as int]));
                    return Some(RelaxedLevel(values[k].0));
                }
                t = t + 1;
            }
            k = k + 1;
        }
        None
    }
}

} // verus!
