//! The registry of line patterns: named UFS and block patterns, the active
//! pattern of each trace kind, and the testing of a pattern against text.

use vstd::prelude::*;
use crate::matcher::{LinePattern, regex_compile_result, regex_captures, regex_group_names, named_capture};
use crate::parse::text_or_empty;
use crate::pending::{find_key, put_key, drop_key, lemma_find_key, lemma_find_key_at};
use crate::text::{str_eq, concat2, str_trim, str_lines, lines_spec, trim_spec};

verus! {

pub const DEFAULT_UFS_PATTERN_NAME: &'static str = "Default UFS Pattern";

pub const DEFAULT_BLOCK_PATTERN_NAME: &'static str = "Default Block Pattern";

pub const DEFAULT_UFSCUSTOM_PATTERN_NAME: &'static str = "Default UFS Custom Pattern";

/// The UFS pattern that is active before any other is chosen; its groups
/// are named after the fields they hold.
pub const ACTIVE_UFS_REGEX: &'static str = r"^\s*(?P<process>.*?)\s+\[(?P<cpu>[0-9]+)\].*?(?P<time>[0-9]+\.[0-9]+):\s+ufshcd_command:\s+(?P<command>send_req|complete_rsp):.*?tag:\s*(?P<tag>\d+).*?size:\s*(?P<size>[-]?\d+).*?LBA:\s*(?P<lba>\d+).*?opcode:\s*(?P<opcode>0x[0-9a-f]+).*?group_id:\s*0x(?P<group_id>[0-9a-f]+).*?hwq_id:\s*(?P<hwq_id>[-]?\d+)";

/// The UFS pattern that `initialize_patterns` registers.
pub const DEFAULT_UFS_REGEX: &'static str = r"^\s*(?P<process>.*?)\s+\[(?P<cpu>[0-9]+)\].*?(?P<time>[0-9]+\.[0-9]+):\s+ufshcd_command:\s+(?P<command>send_req|complete_rsp):.*?tag:\s*(?P<tag>\d+).*?size:\s*(?P<size>[-]?\d+).*?LBA:\s*(?P<lba>\d+).*?opcode:\s*(?P<opcode>0x[0-9a-f]+).*?group_id:\s*0x(?P<group_id>[0-9a-f]+).*?hwq_id:\s*(?P<hwq_id>\d+)";

/// The block pattern, both the initially active one and the registered one.
pub const DEFAULT_BLOCK_REGEX: &'static str = r"^\s*(?P<process>.*?)\s+\[(?P<cpu>\d+)\]\s+(?P<flags>.+?)\s+(?P<time>[\d\.]+):\s+(?P<action>\S+):\s+(?P<devmajor>\d+),(?P<devminor>\d+)\s+(?P<io_type>[A-Z]+)(?:\s+(?P<extra>\d+))?\s+\(\)\s+(?P<sector>\d+)\s+\+\s+(?P<size>\d+)(?:\s+\S+)?\s+\[(?P<comm>.*?)\]$";

/// The custom UFS pattern: `opcode,lba,size,start_time,end_time`.
pub const DEFAULT_UFSCUSTOM_REGEX: &'static str = r"^(?P<opcode>0x[0-9a-f]+),(?P<lba>\d+),(?P<size>\d+),(?P<start_time>\d+(?:\.\d+)?),(?P<end_time>\d+(?:\.\d+)?)$";

/// A registered pattern as it is listed.
#[derive(Debug, Clone)]
pub struct Pattern {
    pub name: String,
    pub pattern_type: String,
    pub pattern: String,
    pub is_active: bool,
}

/// The outcome of testing a pattern against a text.
#[derive(Debug, Clone)]
pub struct RegexTestResult {
    pub success: bool,
    pub error: Option<String>,
    pub matches: Option<Vec<RegexMatch>>,
}

/// The match of a pattern in one line: the whole match, the text of every
/// group (empty for a group that took no part) and, when the pattern has
/// named groups, the name and text of each named group that took part.
#[derive(Debug, Clone)]
pub struct RegexMatch {
    pub full_match: String,
    pub captures: Vec<String>,
    pub groups: Option<Vec<(String, String)>>,
}

/// Named patterns of the UFS and block kinds and the active pattern of each
/// trace kind.
pub struct PatternRegistry {
    ufs: Vec<(String, LinePattern)>,
    block: Vec<(String, LinePattern)>,
    active_ufs: (String, LinePattern),
    active_block: (String, LinePattern),
    active_custom: (String, LinePattern),
}

/// The `(name, expression)` pairs of a list of named patterns.
pub open spec fn entries_of(v: Seq<(String, LinePattern)>) -> Seq<(Seq<char>, Seq<char>)> {
    v.map_values(|e: (String, LinePattern)| (e.0@, e.1.source_text()))
}

/// No two entries have the same name.
pub open spec fn names_unique(s: Seq<(Seq<char>, Seq<char>)>) -> bool {
    forall|i: int, j: int| 0 <= i < s.len() && 0 <= j < s.len() && i != j ==> s[i].0 != s[j].0
}

/// Every pattern of the list is well formed.
pub open spec fn all_wf(v: Seq<(String, LinePattern)>) -> bool {
    forall|i: int| 0 <= i < v.len() ==> (#[trigger] v[i]).1.wf()
}

/// The message for a pattern type other than `ufs` and `block`.
pub open spec fn unsupported_type_msg(t: Seq<char>) -> Seq<char> {
    "Unsupported pattern type: "@ + t
}

/// The message for a name that is not registered.
pub open spec fn not_found_msg(name: Seq<char>) -> Seq<char> {
    "Pattern '"@ + name + "' not found"@
}

/// The message for a pattern that does not compile.
pub open spec fn invalid_regex_msg(e: Seq<char>) -> Seq<char> {
    "Invalid regex pattern: "@ + e
}

impl PatternRegistry {
    /// The registered UFS patterns, as `(name, expression)`.
    pub closed spec fn ufs_view(&self) -> Seq<(Seq<char>, Seq<char>)> {
        entries_of(self.ufs@)
    }

    /// The registered block patterns, as `(name, expression)`.
    pub closed spec fn block_view(&self) -> Seq<(Seq<char>, Seq<char>)> {
        entries_of(self.block@)
    }

    /// The active UFS pattern, as `(name, expression)`.
    pub closed spec fn active_ufs_view(&self) -> (Seq<char>, Seq<char>) {
        (self.active_ufs.0@, self.active_ufs.1.source_text())
    }

    /// The active block pattern, as `(name, expression)`.
    pub closed spec fn active_block_view(&self) -> (Seq<char>, Seq<char>) {
        (self.active_block.0@, self.active_block.1.source_text())
    }

    /// The active custom UFS pattern, as `(name, expression)`.
    pub closed spec fn active_custom_view(&self) -> (Seq<char>, Seq<char>) {
        (self.active_custom.0@, self.active_custom.1.source_text())
    }

    /// Every pattern is compiled and names are unique within each kind.
    pub closed spec fn wf(&self) -> bool {
        &&& all_wf(self.ufs@)
        &&& all_wf(self.block@)
        &&& self.active_ufs.1.wf()
        &&& self.active_block.1.wf()
        &&& self.active_custom.1.wf()
        &&& names_unique(entries_of(self.ufs@))
        &&& names_unique(entries_of(self.block@))
    }

    /// A well-formed registry holds each name at most once per kind.
    pub proof fn lemma_names_unique(&self)
        requires
            self.wf(),
        ensures
            names_unique(self.ufs_view()),
            names_unique(self.block_view()),
    {
    }

    /// The registry in its starting state: no registered patterns, the
    /// default pattern active for each kind. It fails with the compile error
    /// of the first default pattern that does not compile.
    pub fn new() -> (r: Result<PatternRegistry, String>)
        ensures
            match r {
                Ok(reg) => {
                    &&& reg.wf()
                    &&& reg.ufs_view() == Seq::<(Seq<char>, Seq<char>)>::empty()
                    &&& reg.block_view() == Seq::<(Seq<char>, Seq<char>)>::empty()
                    &&& reg.active_ufs_view() == (DEFAULT_UFS_PATTERN_NAME@, ACTIVE_UFS_REGEX@)
                    &&& reg.active_block_view() == (DEFAULT_BLOCK_PATTERN_NAME@, DEFAULT_BLOCK_REGEX@)
                    &&& reg.active_custom_view() == (DEFAULT_UFSCUSTOM_PATTERN_NAME@, DEFAULT_UFSCUSTOM_REGEX@)
                },
                Err(m) => {
                    if regex_compile_result(ACTIVE_UFS_REGEX@) is Err {
                        regex_compile_result(ACTIVE_UFS_REGEX@) == Err::<(), Seq<char>>(m@)
                    } else if regex_compile_result(DEFAULT_BLOCK_REGEX@) is Err {
                        regex_compile_result(DEFAULT_BLOCK_REGEX@) == Err::<(), Seq<char>>(m@)
                    } else {
                        regex_compile_result(DEFAULT_UFSCUSTOM_REGEX@) == Err::<(), Seq<char>>(m@)
                    }
                },
            },
    {
        let u = LinePattern::compile(ACTIVE_UFS_REGEX)?;
        let b = LinePattern::compile(DEFAULT_BLOCK_REGEX)?;
        let c = LinePattern::compile(DEFAULT_UFSCUSTOM_REGEX)?;
        let reg = PatternRegistry {
            ufs: Vec::new(),
            block: Vec::new(),
            active_ufs: (DEFAULT_UFS_PATTERN_NAME.to_owned(), u),
            active_block: (DEFAULT_BLOCK_PATTERN_NAME.to_owned(), b),
            active_custom: (DEFAULT_UFSCUSTOM_PATTERN_NAME.to_owned(), c),
        };
        assert(entries_of(reg.ufs@) =~= Seq::<(Seq<char>, Seq<char>)>::empty());
        assert(entries_of(reg.block@) =~= Seq::<(Seq<char>, Seq<char>)>::empty());
        Ok(reg)
    }

    /// The active UFS pattern.
    pub fn active_ufs_pattern(&self) -> (r: &LinePattern)
        ensures
            r.source_text() == self.active_ufs_view().1,
            self.wf() ==> r.wf(),
    {
        &self.active_ufs.1
    }

    /// The active block pattern.
    pub fn active_block_pattern(&self) -> (r: &LinePattern)
        ensures
            r.source_text() == self.active_block_view().1,
            self.wf() ==> r.wf(),
    {
        &self.active_block.1
    }

    /// The active custom UFS pattern.
    pub fn active_ufscustom_pattern(&self) -> (r: &LinePattern)
        ensures
            r.source_text() == self.active_custom_view().1,
            self.wf() ==> r.wf(),
    {
        &self.active_custom.1
    }
}

/// The position of the entry named `name`.
fn position_of(v: &Vec<(String, LinePattern)>, name: &str) -> (r: Option<usize>)
    ensures
        match r {
            Some(i) => i < v.len() && find_key(entries_of(v@), name@) == i as int,
            None => find_key(entries_of(v@), name@) == -1,
        },
{
    let ghost s = entries_of(v@);
    let mut i: usize = 0;
    while i < v.len()
        invariant
            s == entries_of(v@),
            0 <= i <= v.len(),
            forall|j: int| 0 <= j < i ==> s[j].0 != name@,
        decreases v.len() - i,
    {
        if str_eq(v[i].0.as_str(), name) {
            proof {
                lemma_find_key_at(s, name@, i as int);
            }
            return Some(i);
        }
        i = i + 1;
    }
    proof {
        lemma_find_key_at(s, name@, i as int);
    }
    None
}

proof fn lemma_put_unique(s: Seq<(Seq<char>, Seq<char>)>, k: Seq<char>, v: Seq<char>)
    requires
        names_unique(s),
    ensures
        names_unique(put_key(s, k, v)),
{
    lemma_find_key(s, k);
}

proof fn lemma_drop_unique(s: Seq<(Seq<char>, Seq<char>)>, k: Seq<char>)
    requires
        names_unique(s),
    ensures
        names_unique(drop_key(s, k)),
        forall|i: int| 0 <= i < drop_key(s, k).len() ==> (#[trigger] drop_key(s, k)[i]).0 != k,
{
    lemma_find_key(s, k);
    let i = find_key(s, k);
    if i >= 0 {
        let t = s.remove(i);
        assert forall|a: int, b: int| 0 <= a < t.len() && 0 <= b < t.len() && a != b implies t[a].0 != t[b].0 by {
            let a2 = if a < i { a } else { a + 1 };
            let b2 = if b < i { b } else { b + 1 };
            assert(t[a] == s[a2]);
            assert(t[b] == s[b2]);
        }
        assert forall|q: int| 0 <= q < t.len() implies (#[trigger] t[q]).0 != k by {
            let q2 = if q < i { q } else { q + 1 };
            assert(t[q] == s[q2]);
        }
    }
}

/// Sets the pattern of `name` in the list, adding it at the end when absent.
fn put_entry(v: &mut Vec<(String, LinePattern)>, name: String, p: LinePattern)
    ensures
        entries_of(final(v)@) == put_key(entries_of(old(v)@), name@, p.source_text()),
        all_wf(old(v)@) && p.wf() ==> all_wf(final(v)@),
{
    let ghost s = entries_of(v@);
    let ghost pv = p.source_text();
    let ghost nv = name@;
    match position_of(v, name.as_str()) {
        Some(i) => {
            v.set(i, (name, p));
            assert(entries_of(v@) =~= s.update(i as int, (nv, pv)));
        },
        None => {
            v.push((name, p));
            assert(entries_of(v@) =~= s.push((nv, pv)));
        },
    }
}

/// The text of a failed pattern-type check.
fn unsupported_type(t: &str) -> (r: String)
    ensures
        r@ == unsupported_type_msg(t@),
{
    concat2("Unsupported pattern type: ", t)
}

/// The text of a failed name lookup.
fn not_found(name: &str) -> (r: String)
    ensures
        r@ == not_found_msg(name@),
{
    let a = concat2("Pattern '", name);
    concat2(a.as_str(), "' not found")
}

/// Registers `pattern` under `name` for the kind `pattern_type` (`ufs` or
/// `block`), replacing a pattern of that name. The expression is compiled
/// first; the kind is checked after that.
pub fn add_pattern(reg: &mut PatternRegistry, name: String, pattern_type: String, pattern: String) -> (r: Result<(), String>)
    requires
        old(reg).wf(),
    ensures
        final(reg).wf(),
        match regex_compile_result(pattern@) {
            Err(e) => r == Err::<(), String>(r->Err_0) && r->Err_0@ == invalid_regex_msg(e) && *final(reg) == *old(reg),
            Ok(_) => if pattern_type@ == "ufs"@ {
                &&& r is Ok
                &&& final(reg).ufs_view() == put_key(old(reg).ufs_view(), name@, pattern@)
                &&& final(reg).block_view() == old(reg).block_view()
                &&& final(reg).active_ufs_view() == old(reg).active_ufs_view()
                &&& final(reg).active_block_view() == old(reg).active_block_view()
                &&& final(reg).active_custom_view() == old(reg).active_custom_view()
            } else if pattern_type@ == "block"@ {
                &&& r is Ok
                &&& final(reg).block_view() == put_key(old(reg).block_view(), name@, pattern@)
                &&& final(reg).ufs_view() == old(reg).ufs_view()
                &&& final(reg).active_ufs_view() == old(reg).active_ufs_view()
                &&& final(reg).active_block_view() == old(reg).active_block_view()
                &&& final(reg).active_custom_view() == old(reg).active_custom_view()
            } else {
                r matches Err(m) && m@ == unsupported_type_msg(pattern_type@) && *final(reg) == *old(reg)
            },
        },
{
    let compiled = match LinePattern::compile(pattern.as_str()) {
        Ok(p) => p,
        Err(e) => {
            return Err(concat2("Invalid regex pattern: ", e.as_str()));
        },
    };
    if str_eq(pattern_type.as_str(), "ufs") {
        proof {
            lemma_put_unique(entries_of(reg.ufs@), name@, pattern@);
        }
        put_entry(&mut reg.ufs, name, compiled);
        Ok(())
    } else if str_eq(pattern_type.as_str(), "block") {
        proof {
            lemma_put_unique(entries_of(reg.block@), name@, pattern@);
        }
        put_entry(&mut reg.block, name, compiled);
        Ok(())
    } else {
        Err(unsupported_type(pattern_type.as_str()))
    }
}

/// Makes the registered pattern `name` of the kind `pattern_type` (`ufs` or
/// `block`) the active one of that kind.
pub fn set_active_pattern(reg: &mut PatternRegistry, name: String, pattern_type: String) -> (r: Result<(), String>)
    requires
        old(reg).wf(),
    ensures
        final(reg).wf(),
        final(reg).ufs_view() == old(reg).ufs_view(),
        final(reg).block_view() == old(reg).block_view(),
        final(reg).active_custom_view() == old(reg).active_custom_view(),
        if pattern_type@ == "ufs"@ {
            let i = find_key(old(reg).ufs_view(), name@);
            &&& final(reg).active_block_view() == old(reg).active_block_view()
            &&& if i < 0 {
                r matches Err(m) && m@ == not_found_msg(name@) && final(reg).active_ufs_view() == old(reg).active_ufs_view()
            } else {
                r is Ok && final(reg).active_ufs_view() == old(reg).ufs_view()[i]
            }
        } else if pattern_type@ == "block"@ {
            let i = find_key(old(reg).block_view(), name@);
            &&& final(reg).active_ufs_view() == old(reg).active_ufs_view()
            &&& if i < 0 {
                r matches Err(m) && m@ == not_found_msg(name@) && final(reg).active_block_view() == old(reg).active_block_view()
            } else {
                r is Ok && final(reg).active_block_view() == old(reg).block_view()[i]
            }
        } else {
            &&& r matches Err(m) && m@ == unsupported_type_msg(pattern_type@)
            &&& final(reg).active_ufs_view() == old(reg).active_ufs_view()
            &&& final(reg).active_block_view() == old(reg).active_block_view()
        },
{
    if str_eq(pattern_type.as_str(), "ufs") {
        match position_of(&reg.ufs, name.as_str()) {
            Some(i) => {
                assert(reg.ufs@[i as int].1.wf());
                proof {
                    lemma_find_key(entries_of(reg.ufs@), name@);
                }
                let p = reg.ufs[i].1.duplicate();
                reg.active_ufs = (name, p);
                Ok(())
            },
            None => Err(not_found(name.as_str())),
        }
    } else if str_eq(pattern_type.as_str(), "block") {
        match position_of(&reg.block, name.as_str()) {
            Some(i) => {
                assert(reg.block@[i as int].1.wf());
                proof {
                    lemma_find_key(entries_of(reg.block@), name@);
                }
                let p = reg.block[i].1.duplicate();
                reg.active_block = (name, p);
                Ok(())
            },
            None => Err(not_found(name.as_str())),
        }
    } else {
        Err(unsupported_type(pattern_type.as_str()))
    }
}

/// Removes the registered pattern `name` of the kind `pattern_type` (`ufs`
/// or `block`); the active pattern of a kind cannot be removed.
pub fn delete_pattern(reg: &mut PatternRegistry, name: String, pattern_type: String) -> (r: Result<(), String>)
    requires
        old(reg).wf(),
    ensures
        final(reg).wf(),
        final(reg).active_ufs_view() == old(reg).active_ufs_view(),
        final(reg).active_block_view() == old(reg).active_block_view(),
        final(reg).active_custom_view() == old(reg).active_custom_view(),
        if pattern_type@ == "ufs"@ {
            &&& final(reg).block_view() == old(reg).block_view()
            &&& if old(reg).active_ufs_view().0 == name@ {
                r matches Err(m) && m@ == "Cannot delete an active pattern"@ && final(reg).ufs_view() == old(reg).ufs_view()
            } else if find_key(old(reg).ufs_view(), name@) < 0 {
                r matches Err(m) && m@ == not_found_msg(name@) && final(reg).ufs_view() == old(reg).ufs_view()
            } else {
                &&& r is Ok
                &&& final(reg).ufs_view() == drop_key(old(reg).ufs_view(), name@)
                &&& find_key(final(reg).ufs_view(), name@) == -1
            }
        } else if pattern_type@ == "block"@ {
            &&& final(reg).ufs_view() == old(reg).ufs_view()
            &&& if old(reg).active_block_view().0 == name@ {
                r matches Err(m) && m@ == "Cannot delete an active pattern"@ && final(reg).block_view() == old(reg).block_view()
            } else if find_key(old(reg).block_view(), name@) < 0 {
                r matches Err(m) && m@ == not_found_msg(name@) && final(reg).block_view() == old(reg).block_view()
            } else {
                &&& r is Ok
                &&& final(reg).block_view() == drop_key(old(reg).block_view(), name@)
                &&& find_key(final(reg).block_view(), name@) == -1
            }
        } else {
            &&& r matches Err(m) && m@ == unsupported_type_msg(pattern_type@)
            &&& final(reg).ufs_view() == old(reg).ufs_view()
            &&& final(reg).block_view() == old(reg).block_view()
        },
{
    proof {
        lemma_deleted_pattern_absent(reg.ufs_view(), name@);
        lemma_deleted_pattern_absent(reg.block_view(), name@);
    }
    if str_eq(pattern_type.as_str(), "ufs") {
        if str_eq(reg.active_ufs.0.as_str(), name.as_str()) {
            return Err("Cannot delete an active pattern".to_owned());
        }
        match position_of(&reg.ufs, name.as_str()) {
            Some(i) => {
                let ghost s = entries_of(reg.ufs@);
                let ghost old_v = reg.ufs@;
                proof {
                    lemma_drop_unique(s, name@);
                }
                reg.ufs.remove(i);
                assert(entries_of(reg.ufs@) =~= s.remove(i as int));
                assert forall|q: int| 0 <= q < reg.ufs@.len() implies (#[trigger] reg.ufs@[q]).1.wf() by {
                    let q2 = if q < i { q } else { q + 1 };
                    assert(reg.ufs@[q] == old_v[q2]);
                }
                Ok(())
            },
            None => Err(not_found(name.as_str())),
        }
    } else if str_eq(pattern_type.as_str(), "block") {
        if str_eq(reg.active_block.0.as_str(), name.as_str()) {
            return Err("Cannot delete an active pattern".to_owned());
        }
        match position_of(&reg.block, name.as_str()) {
            Some(i) => {
                let ghost s = entries_of(reg.block@);
                let ghost old_v = reg.block@;
                proof {
                    lemma_drop_unique(s, name@);
                }
                reg.block.remove(i);
                assert(entries_of(reg.block@) =~= s.remove(i as int));
                assert forall|q: int| 0 <= q < reg.block@.len() implies (#[trigger] reg.block@[q]).1.wf() by {
                    let q2 = if q < i { q } else { q + 1 };
                    assert(reg.block@[q] == old_v[q2]);
                }
                Ok(())
            },
            None => Err(not_found(name.as_str())),
        }
    } else {
        Err(unsupported_type(pattern_type.as_str()))
    }
}

/// `p` lists the entry `e` of the kind `kind`, active when its name is
/// `active`.
pub open spec fn pattern_fits(p: Pattern, e: (Seq<char>, Seq<char>), kind: Seq<char>, active: Seq<char>) -> bool {
    &&& p.name@ == e.0
    &&& p.pattern_type@ == kind
    &&& p.pattern@ == e.1
    &&& p.is_active == (e.0 == active)
}

/// `r` lists the entries `v`, in order.
pub open spec fn patterns_fit(r: Seq<Pattern>, v: Seq<(Seq<char>, Seq<char>)>, kind: Seq<char>, active: Seq<char>) -> bool {
    &&& r.len() == v.len()
    &&& forall|j: int| 0 <= j < r.len() ==> pattern_fits(#[trigger] r[j], v[j], kind, active)
}

/// Appends the listing of the entries of `v` to `out`.
fn list_patterns(v: &Vec<(String, LinePattern)>, kind: &str, active: &str, out: &mut Vec<Pattern>)
    ensures
        final(out)@.len() == old(out)@.len() + v@.len(),
        final(out)@.take(old(out)@.len() as int) == old(out)@,
        patterns_fit(final(out)@.skip(old(out)@.len() as int), entries_of(v@), kind@, active@),
{
    let ghost base = out@;
    let ghost s = entries_of(v@);
    let mut i: usize = 0;
    while i < v.len()
        invariant
            s == entries_of(v@),
            0 <= i <= v.len(),
            out@.len() == base.len() + i,
            out@.take(base.len() as int) == base,
            forall|j: int| 0 <= j < i ==> pattern_fits(#[trigger] out@.skip(base.len() as int)[j], s[j], kind@, active@),
        decreases v.len() - i,
    {
        let name = v[i].0.clone();
        let is_active = str_eq(name.as_str(), active);
        let p = Pattern {
            name,
            pattern_type: kind.to_owned(),
            pattern: v[i].1.source().clone(),
            is_active,
        };
        let ghost before = out@;
        out.push(p);
        proof {
            assert(out@.take(base.len() as int) =~= before.take(base.len() as int));
            assert forall|j: int| 0 <= j < i + 1 implies pattern_fits(#[trigger] out@.skip(base.len() as int)[j], s[j], kind@, active@) by {
                assert(out@.skip(base.len() as int)[j] == out@[base.len() + j]);
                if j < i {
                    assert(before.skip(base.len() as int)[j] == before[base.len() + j]);
                }
            }
        }
        i = i + 1;
    }
}

/// The registered patterns of the kind `pattern_type` (`ufs` or `block`),
/// or of both kinds, UFS first, when no kind is given. Each is marked
/// active when it carries the name of the active pattern of its kind.
pub fn get_patterns(reg: &PatternRegistry, pattern_type: Option<String>) -> (r: Result<Vec<Pattern>, String>)
    ensures
        match pattern_type {
            Some(t) => if t@ == "ufs"@ {
                r matches Ok(v) && patterns_fit(v@, reg.ufs_view(), "ufs"@, reg.active_ufs_view().0)
            } else if t@ == "block"@ {
                r matches Ok(v) && patterns_fit(v@, reg.block_view(), "block"@, reg.active_block_view().0)
            } else {
                r matches Err(m) && m@ == unsupported_type_msg(t@)
            },
            None => r matches Ok(v) && {
                let n = reg.ufs_view().len() as int;
                &&& v@.len() == n + reg.block_view().len()
                &&& patterns_fit(v@.take(n), reg.ufs_view(), "ufs"@, reg.active_ufs_view().0)
                &&& patterns_fit(v@.skip(n), reg.block_view(), "block"@, reg.active_block_view().0)
            },
        },
{
    let mut out: Vec<Pattern> = Vec::new();
    match pattern_type {
        Some(t) => {
            if str_eq(t.as_str(), "ufs") {
                list_patterns(&reg.ufs, "ufs", reg.active_ufs.0.as_str(), &mut out);
                assert(out@.skip(0) =~= out@);
                Ok(out)
            } else if str_eq(t.as_str(), "block") {
                list_patterns(&reg.block, "block", reg.active_block.0.as_str(), &mut out);
                assert(out@.skip(0) =~= out@);
                Ok(out)
            } else {
                Err(unsupported_type(t.as_str()))
            }
        },
        None => {
            list_patterns(&reg.ufs, "ufs", reg.active_ufs.0.as_str(), &mut out);
            let ghost first = out@;
            assert(first.skip(0) =~= first);
            list_patterns(&reg.block, "block", reg.active_block.0.as_str(), &mut out);
            assert(out@.take(first.len() as int) == first);
            Ok(out)
        },
    }
}

/// The active pattern of each kind, keyed `ufs` and `block`.
pub fn get_active_patterns(reg: &PatternRegistry) -> (r: Vec<(String, Pattern)>)
    ensures
        r.len() == 2,
        r@[0].0@ == "ufs"@,
        pattern_fits(r@[0].1, reg.active_ufs_view(), "ufs"@, reg.active_ufs_view().0),
        r@[1].0@ == "block"@,
        pattern_fits(r@[1].1, reg.active_block_view(), "block"@, reg.active_block_view().0),
{
    let u = Pattern {
        name: reg.active_ufs.0.clone(),
        pattern_type: "ufs".to_owned(),
        pattern: reg.active_ufs.1.source().clone(),
        is_active: true,
    };
    let b = Pattern {
        name: reg.active_block.0.clone(),
        pattern_type: "block".to_owned(),
        pattern: reg.active_block.1.source().clone(),
        is_active: true,
    };
    let mut r: Vec<(String, Pattern)> = Vec::new();
    r.push(("ufs".to_owned(), u));
    r.push(("block".to_owned(), b));
    r
}

/// Registers the default UFS and block patterns under their default names.
/// It fails, changing nothing, with the compile error of the first of the
/// two expressions that does not compile.
pub fn initialize_patterns(reg: &mut PatternRegistry) -> (r: Result<(), String>)
    requires
        old(reg).wf(),
    ensures
        final(reg).wf(),
        final(reg).active_ufs_view() == old(reg).active_ufs_view(),
        final(reg).active_block_view() == old(reg).active_block_view(),
        final(reg).active_custom_view() == old(reg).active_custom_view(),
        match r {
            Ok(_) => {
                &&& final(reg).ufs_view() == put_key(old(reg).ufs_view(), DEFAULT_UFS_PATTERN_NAME@, DEFAULT_UFS_REGEX@)
                &&& final(reg).block_view() == put_key(old(reg).block_view(), DEFAULT_BLOCK_PATTERN_NAME@, DEFAULT_BLOCK_REGEX@)
            },
            Err(m) => {
                &&& final(reg).ufs_view() == old(reg).ufs_view()
                &&& final(reg).block_view() == old(reg).block_view()
                &&& if regex_compile_result(DEFAULT_UFS_REGEX@) is Err {
                    regex_compile_result(DEFAULT_UFS_REGEX@) == Err::<(), Seq<char>>(m@)
                } else {
                    regex_compile_result(DEFAULT_BLOCK_REGEX@) == Err::<(), Seq<char>>(m@)
                }
            },
        },
        r is Ok <==> (regex_compile_result(DEFAULT_UFS_REGEX@) is Ok && regex_compile_result(DEFAULT_BLOCK_REGEX@) is Ok),
{
    let u = LinePattern::compile(DEFAULT_UFS_REGEX)?;
    let b = LinePattern::compile(DEFAULT_BLOCK_REGEX)?;
    proof {
        lemma_put_unique(entries_of(reg.ufs@), DEFAULT_UFS_PATTERN_NAME@, DEFAULT_UFS_REGEX@);
        lemma_put_unique(entries_of(reg.block@), DEFAULT_BLOCK_PATTERN_NAME@, DEFAULT_BLOCK_REGEX@);
    }
    put_entry(&mut reg.ufs, DEFAULT_UFS_PATTERN_NAME.to_owned(), u);
    put_entry(&mut reg.block, DEFAULT_BLOCK_PATTERN_NAME.to_owned(), b);
    Ok(())
}

/// Some group of the pattern has a name.
pub open spec fn has_named_groups(names: Seq<Option<Seq<char>>>) -> bool {
    exists|i: int| 0 <= i < names.len() && (#[trigger] names[i]) is Some
}

/// The text of each group, empty for a group that took no part.
pub open spec fn capture_texts(caps: Seq<Option<Seq<char>>>) -> Seq<Seq<char>> {
    caps.map_values(|c: Option<Seq<char>>| text_or_empty(c))
}

/// The `(name, text)` of each named group among the first `k` groups whose
/// name finds a group that took part.
pub open spec fn named_group_pairs(caps: Seq<Option<Seq<char>>>, names: Seq<Option<Seq<char>>>, k: int) -> Seq<(Seq<char>, Seq<char>)>
    decreases k,
{
    if k <= 0 {
        Seq::empty()
    } else {
        let prev = named_group_pairs(caps, names, k - 1);
        match names[k - 1] {
            Some(n) => match named_capture(caps, names, n) {
                Some(t) => prev.push((n, t)),
                None => prev,
            },
            None => prev,
        }
    }
}

/// `m` reports the groups `caps` of a match of a pattern whose groups are
/// named `names`.
pub open spec fn match_fits(m: RegexMatch, caps: Seq<Option<Seq<char>>>, names: Seq<Option<Seq<char>>>) -> bool {
    &&& m.full_match@ == text_or_empty(caps[0])
    &&& m.captures.deep_view() == capture_texts(caps)
    &&& if has_named_groups(names) {
        m.groups matches Some(g) && g.deep_view() == named_group_pairs(caps, names, names.len() as int)
    } else {
        m.groups is None
    }
}

/// The lines that are not blank and hold a match of `src`, in order.
pub open spec fn matched_lines(lines: Seq<Seq<char>>, src: Seq<char>) -> Seq<Seq<char>>
    decreases lines.len(),
{
    if lines.len() == 0 {
        Seq::empty()
    } else {
        let prev = matched_lines(lines.drop_last(), src);
        let l = lines.last();
        if trim_spec(l).len() > 0 && regex_captures(src, l) is Some {
            prev.push(l)
        } else {
            prev
        }
    }
}

/// The report of one match.
fn regex_match_of(p: &LinePattern, caps: &Vec<Option<String>>) -> (m: RegexMatch)
    requires
        p.wf(),
        caps.len() == regex_group_names(p.source_text()).len(),
    ensures
        match_fits(m, caps.deep_view(), regex_group_names(p.source_text())),
{
    let names = p.group_names();
    assert(names.deep_view().len() == names.len());
    let full_match = match &caps[0] {
        Some(t) => t.clone(),
        None => String::new(),
    };
    let ghost cv = caps.deep_view();
    let mut captures: Vec<String> = Vec::new();
    let mut i: usize = 0;
    while i < caps.len()
        invariant
            cv == caps.deep_view(),
            0 <= i <= caps.len(),
            captures.deep_view() == capture_texts(cv).take(i as int),
        decreases caps.len() - i,
    {
        let t = match &caps[i] {
            Some(t) => t.clone(),
            None => String::new(),
        };
        assert(t@ == text_or_empty(cv[i as int]));
        let ghost before = captures.deep_view();
        captures.push(t);
        assert(captures.deep_view() =~= before.push(t@));
        i = i + 1;
        assert(captures.deep_view() =~= capture_texts(cv).take(i as int));
    }
    assert(capture_texts(cv).take(i as int) =~= capture_texts(cv));
    let ghost nv = names.deep_view();
    let mut named = false;
    let mut k: usize = 0;
    while k < names.len()
        invariant
            nv == names.deep_view(),
            0 <= k <= names.len(),
            named == (exists|q: int| 0 <= q < k && (#[trigger] nv[q]) is Some),
        decreases names.len() - k,
    {
        if names[k].is_some() {
            named = true;
            assert(nv[k as int] is Some);
        }
        k = k + 1;
    }
    let groups = if named {
        let mut g: Vec<(String, String)> = Vec::new();
        let mut k: usize = 0;
        while k < names.len()
            invariant
                p.wf(),
                nv == names.deep_view(),
                nv == regex_group_names(p.source_text()),
                cv == caps.deep_view(),
                0 <= k <= names.len(),
                g.deep_view() == named_group_pairs(cv, nv, k as int),
            decreases names.len() - k,
        {
            match &names[k] {
                Some(n) => {
                    match p.named(caps, n.as_str()) {
                        Some(t) => {
                            g.push((n.clone(), t));
                        },
                        None => {},
                    }
                },
                None => {},
            }
            k = k + 1;
            assert(g.deep_view() =~= named_group_pairs(cv, nv, k as int));
        }
        Some(g)
    } else {
        None
    };
    RegexMatch { full_match, captures, groups }
}

/// Tests `pattern` against each non-blank line of `text`. When the pattern
/// does not compile the result carries the error; otherwise it carries the
/// report of each line that holds a match, or no list when none does.
pub fn test_regex_pattern(text: String, pattern: String) -> (r: RegexTestResult)
    ensures
        match regex_compile_result(pattern@) {
            Err(e) => !r.success && (r.error matches Some(m) && m@ == invalid_regex_msg(e)) && r.matches is None,
            Ok(_) => {
                let ml = matched_lines(lines_spec(text@), pattern@);
                &&& r.success
                &&& r.error is None
                &&& ml.len() == 0 ==> r.matches is None
                &&& ml.len() > 0 ==> (r.matches matches Some(v) && v.len() == ml.len()
                    && forall|j: int| 0 <= j < v.len() ==> match_fits(#[trigger] v@[j],
                        regex_captures(pattern@, ml[j])->0, regex_group_names(pattern@)))
            },
        },
{
    let p = match LinePattern::compile(pattern.as_str()) {
        Ok(p) => p,
        Err(e) => {
            return RegexTestResult {
                success: false,
                error: Some(concat2("Invalid regex pattern: ", e.as_str())),
                matches: None,
            };
        },
    };
    let lines = str_lines(text.as_str());
    let ghost ls = lines_spec(text@);
    let mut matches: Vec<RegexMatch> = Vec::new();
    let mut i: usize = 0;
    while i < lines.len()
        invariant
            p.wf(),
            p.source_text() == pattern@,
            ls == lines_spec(text@),
            lines@.map_values(|l: &str| l@) == ls,
            0 <= i <= lines.len(),
            matches.len() == matched_lines(ls.take(i as int), pattern@).len(),
            forall|j: int| 0 <= j < matches.len() ==> match_fits(#[trigger] matches@[j],
                regex_captures(pattern@, matched_lines(ls.take(i as int), pattern@)[j])->0, regex_group_names(pattern@)),
        decreases lines.len() - i,
    {
        let line: &str = lines[i];
        assert(line@ == ls[i as int]);
        assert(ls.take(i + 1).drop_last() =~= ls.take(i as int));
        if !str_trim(line).is_empty() {
            match p.captures(line) {
                Some(caps) => {
                    let m = regex_match_of(&p, &caps);
                    matches.push(m);
                },
                None => {},
            }
        }
        i = i + 1;
    }
    assert(ls.take(i as int) =~= ls);
    RegexTestResult {
        success: true,
        error: None,
        matches: if matches.len() == 0 { None } else { Some(matches) },
    }
}

/// A name that `add_pattern` has just registered is found, with the
/// expression registered, so `set_active_pattern` can make it the active
/// pattern of its kind.
pub proof fn lemma_added_pattern_found(v: Seq<(Seq<char>, Seq<char>)>, name: Seq<char>, src: Seq<char>)
    ensures
        find_key(put_key(v, name, src), name) >= 0,
        put_key(v, name, src)[find_key(put_key(v, name, src), name)] == (name, src),
{
    lemma_find_key(v, name);
    let i = find_key(v, name);
    let w = put_key(v, name, src);
    if i < 0 {
        lemma_find_key_at(w, name, v.len() as int);
    } else {
        lemma_find_key_at(w, name, i);
    }
}

/// A name that `delete_pattern` has removed is no longer registered, so
/// setting it active fails with "not found".
pub proof fn lemma_deleted_pattern_absent(v: Seq<(Seq<char>, Seq<char>)>, name: Seq<char>)
    requires
        names_unique(v),
    ensures
        find_key(drop_key(v, name), name) == -1,
{
    lemma_drop_unique(v, name);
    lemma_find_key(drop_key(v, name), name);
}

/// Registering a name that is already registered replaces its expression
/// and leaves the number of registered names as it was; a new name adds
/// one entry.
pub proof fn lemma_add_pattern_count(v: Seq<(Seq<char>, Seq<char>)>, name: Seq<char>, src: Seq<char>)
    ensures
        find_key(v, name) >= 0 ==> put_key(v, name, src).len() == v.len(),
        find_key(v, name) < 0 ==> put_key(v, name, src).len() == v.len() + 1,
{
    lemma_find_key(v, name);
}

} // verus!
