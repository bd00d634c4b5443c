//! Which modules log debug output.
//!
//! Logging is on everywhere when `MG_DEBUG` is `1`, `all` or `true` (in any
//! case), or when `MG_DEBUG_INDEX` is `1` or `true`. Otherwise `MG_DEBUG`
//! names a pattern, and a module logs when its path contains a pattern;
//! `MG_DEBUG_INDEX` adds the index modules' names as patterns.
//!
//! The environment is read by the caller; this module decides from the
//! values it is handed.
use vstd::prelude::*;
use vstd::utf8::encode_utf8;

verus! {

/// `needle` occurs in `hay` at byte offset `i`.
pub open spec fn occurs_at(hay: Seq<u8>, needle: Seq<u8>, i: int) -> bool {
    &&& 0 <= i
    &&& i + needle.len() <= hay.len()
    &&& hay.subrange(i, i + needle.len()) == needle
}

/// `needle` occurs somewhere in `hay` (the empty needle occurs everywhere).
pub open spec fn contains_bytes(hay: Seq<u8>, needle: Seq<u8>) -> bool {
    exists|i: int| occurs_at(hay, needle, i)
}

/// ASCII upper-case letters mapped to lower case; other bytes unchanged.
pub open spec fn ascii_lower(b: u8) -> u8 {
    if 65 <= b <= 90 { (b + 32) as u8 } else { b }
}

/// `s` lower-cased is `w`, for a lower-case ASCII word `w`. No character
/// outside ASCII lower-cases to an ASCII letter of `true`, so this is
/// `s.to_lowercase() == w` for the words used here.
pub open spec fn lowercase_is(s: Seq<u8>, w: Seq<u8>) -> bool {
    s.len() == w.len() && forall|i: int| 0 <= i < s.len() ==> ascii_lower(#[trigger] s[i]) == w[i]
}

/// The bytes of `true`.
pub open spec fn true_bytes() -> Seq<u8> {
    seq![116u8, 114u8, 117u8, 101u8]
}

/// The bytes of `1`.
pub open spec fn one_bytes() -> Seq<u8> {
    seq![49u8]
}

/// The bytes of `all`.
pub open spec fn all_bytes() -> Seq<u8> {
    seq![97u8, 108u8, 108u8]
}

/// `MG_DEBUG` switches logging on everywhere.
pub open spec fn debug_all(v: Seq<u8>) -> bool {
    v == one_bytes() || v == all_bytes() || lowercase_is(v, true_bytes())
}

/// `MG_DEBUG_INDEX` switches logging on.
pub open spec fn debug_index(v: Seq<u8>) -> bool {
    v == one_bytes() || lowercase_is(v, true_bytes())
}

/// Debug logging configuration.
pub struct DebugConfig {
    /// Whether debug logging is on everywhere.
    enabled: bool,
    /// Module path patterns.
    patterns: Vec<String>,
}

/// Whether `hay[i..]` starts with `needle`.
fn occurs_at_exec(hay: &[u8], needle: &[u8], i: usize) -> (r: bool)
    requires
        i + needle@.len() <= hay@.len(),
    ensures
        r == occurs_at(hay@, needle@, i as int),
{
    let n = needle.len();
    let mut k: usize = 0;
    while k < n
        invariant
            k <= n,
            n == needle@.len(),
            i + n <= hay.len(),
            forall|m: int| 0 <= m < k ==> hay@[i + m] == needle@[m],
        decreases n - k,
    {
        if hay[i + k] != needle[k] {
            proof {
                assert(hay@.subrange(i as int, i + n)[k as int] != needle@[k as int]);
            }
            return false;
        }
        k = k + 1;
    }
    proof {
        assert(hay@.subrange(i as int, i + n) =~= needle@);
    }
    true
}

/// Whether `needle` occurs in `hay`.
pub fn contains(hay: &[u8], needle: &[u8]) -> (r: bool)
    ensures
        r == contains_bytes(hay@, needle@),
{
    if needle.len() > hay.len() {
        return false;
    }
    let last = hay.len() - needle.len();
    let mut i: usize = 0;
    loop
        invariant
            i <= last,
            last + needle@.len() == hay@.len(),
            forall|j: int| 0 <= j < i ==> !occurs_at(hay@, needle@, j),
        decreases last - i,
    {
        if occurs_at_exec(hay, needle, i) {
            return true;
        }
        if i == last {
            return false;
        }
        i = i + 1;
    }
}

/// Whether `s` lower-cases to the bytes `w` (both of the same length).
fn lowercase_eq(s: &[u8], w: &[u8]) -> (r: bool)
    ensures
        r == lowercase_is(s@, w@),
{
    if s.len() != w.len() {
        return false;
    }
    let mut k: usize = 0;
    while k < s.len()
        invariant
            k <= s@.len(),
            s@.len() == w@.len(),
            forall|m: int| 0 <= m < k ==> ascii_lower(#[trigger] s@[m]) == w@[m],
        decreases s@.len() - k,
    {
        let b = s[k];
        let lower = if 65 <= b && b <= 90 { b + 32 } else { b };
        if lower != w[k] {
            return false;
        }
        k = k + 1;
    }
    true
}

/// Whether the bytes are exactly `w`.
fn bytes_eq(s: &[u8], w: &[u8]) -> (r: bool)
    ensures
        r == (s@ == w@),
{
    if s.len() != w.len() {
        return false;
    }
    let mut k: usize = 0;
    while k < s.len()
        invariant
            k <= s@.len(),
            s@.len() == w@.len(),
            forall|m: int| 0 <= m < k ==> s@[m] == w@[m],
        decreases s@.len() - k,
    {
        if s[k] != w[k] {
            return false;
        }
        k = k + 1;
    }
    proof {
        assert(s@ =~= w@);
    }
    true
}

impl DebugConfig {
    /// Whether logging is on everywhere.
    pub closed spec fn enabled_view(&self) -> bool {
        self.enabled
    }

    /// The module path patterns.
    pub closed spec fn patterns_view(&self) -> Seq<Seq<char>> {
        self.patterns@.map_values(|p: String| p@)
    }

    /// Build the configuration from the values of `MG_DEBUG` and
    /// `MG_DEBUG_INDEX` (`None` where unset).
    pub fn from_env_values(mg_debug: Option<&str>, mg_debug_index: Option<&str>) -> (r: Self)
        ensures
            ({
                let all = mg_debug is Some && debug_all(encode_utf8(mg_debug->0@));
                let index = mg_debug_index is Some && debug_index(encode_utf8(mg_debug_index->0@));
                let named: Seq<Seq<char>> = if mg_debug is Some && !all { seq![mg_debug->0@] } else { seq![] };
                let index_patterns: Seq<Seq<char>> =
                    if index { seq!["mph_delta_index"@, "optimised_index"@] } else { seq![] };
                &&& r.enabled_view() == (all || index)
                &&& r.patterns_view() == named + index_patterns
            }),
    {
        let one: [u8; 1] = [49u8];
        let all: [u8; 3] = [97u8, 108u8, 108u8];
        let tru: [u8; 4] = [116u8, 114u8, 117u8, 101u8];
        proof {
            assert(one@ =~= one_bytes());
            assert(all@ =~= all_bytes());
            assert(tru@ =~= true_bytes());
        }
        let mut patterns: Vec<String> = Vec::new();
        let mut enabled = false;
        match mg_debug {
            Some(v) => {
                let b = v.as_bytes();
                if bytes_eq(b, one.as_slice()) || bytes_eq(b, all.as_slice()) || lowercase_eq(b, tru.as_slice()) {
                    enabled = true;
                } else {
                    patterns.push(v.to_owned());
                }
            },
            None => {},
        }
        let mut index = false;
        match mg_debug_index {
            Some(v) => {
                let b = v.as_bytes();
                index = bytes_eq(b, one.as_slice()) || lowercase_eq(b, tru.as_slice());
            },
            None => {},
        }
        let ghost before = patterns@;
        if index {
            patterns.push("mph_delta_index".to_owned());
            patterns.push("optimised_index".to_owned());
        }
        let r = DebugConfig { enabled: enabled || index, patterns };
        proof {
            let named: Seq<Seq<char>> = if mg_debug is Some && !enabled { seq![mg_debug->0@] } else { seq![] };
            assert(before.map_values(|p: String| p@) =~= named);
            let index_patterns: Seq<Seq<char>> =
                if index { seq!["mph_delta_index"@, "optimised_index"@] } else { seq![] };
            assert(r.patterns_view() =~= named + index_patterns);
        }
        r
    }

    /// Whether debug logging is on for the module at `path`: on
    /// everywhere, or some pattern occurs in the path.
    pub fn is_enabled(&self, path: &str) -> (r: bool)
        ensures
            r == (self.enabled_view() || exists|k: int| 0 <= k < self.patterns_view().len()
                && contains_bytes(encode_utf8(path@), encode_utf8(#[trigger] self.patterns_view()[k]))),
    {
        if self.enabled {
            return true;
        }
        let hay = path.as_bytes();
        let mut k: usize = 0;
        while k < self.patterns.len()
            invariant
                k <= self.patterns@.len(),
                !self.enabled,
                hay@ == encode_utf8(path@),
                forall|j: int| 0 <= j < k ==> !contains_bytes(hay@, encode_utf8(#[trigger] self.patterns_view()[j])),
            decreases self.patterns@.len() - k,
        {
            let p = self.patterns[k].as_str();
            let pb = p.as_bytes();
            proof {
                assert(self.patterns_view()[k as int] == self.patterns@[k as int]@);
                assert(pb@ == encode_utf8(self.patterns_view()[k as int]));
            }
            if contains(hay, pb) {
                return true;
            }
            k = k + 1;
        }
        false
    }
}

/// Whether debug logging is on for the module at `path` under `config`.
pub fn is_debug_enabled(config: &DebugConfig, path: &str) -> (r: bool)
    ensures
        r == (config.enabled_view() || exists|k: int| 0 <= k < config.patterns_view().len()
            && contains_bytes(encode_utf8(path@), encode_utf8(#[trigger] config.patterns_view()[k]))),
{
    config.is_enabled(path)
}

} // verus!
