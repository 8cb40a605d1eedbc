//! Compiled line patterns (regular expressions of the `regex` crate).

use vstd::prelude::*;

verus! {

#[verifier::external_type_specification]
#[verifier::external_body]
pub struct ExRegex(regex::Regex);

/// What `regex::Regex::new` gives for a pattern: `Ok(())` when it compiles,
/// else the text of the error.
pub uninterp spec fn regex_compile_result(pattern: Seq<char>) -> Result<(), Seq<char>>;

/// The names of the capture groups of a pattern, by group index, as
/// `Regex::capture_names` lists them.
pub uninterp spec fn regex_group_names(pattern: Seq<char>) -> Seq<Option<Seq<char>>>;

/// What `Regex::captures` gives for a pattern and a text: `None` when the
/// text has no match, else the text of each capture group of the first
/// match, by group index (`None` for a group that took no part).
pub uninterp spec fn regex_captures(pattern: Seq<char>, text: Seq<char>) -> Option<Seq<Option<Seq<char>>>>;

/// A compiled regular expression together with its source text and the
/// names of its groups.
pub struct LinePattern {
    source: String,
    re: regex::Regex,
    names: Vec<Option<String>>,
}

/// Calls `regex::Regex::new`; the outcome is `regex_compile_result` of the
/// pattern, an error being turned into its display text.
#[verifier::external_body]
fn regex_new(pattern: &str) -> (r: Result<regex::Regex, String>)
    ensures
        match r {
            Ok(_) => regex_compile_result(pattern@) is Ok,
            Err(m) => regex_compile_result(pattern@) == Err::<(), Seq<char>>(m@),
        },
{
    regex::Regex::new(pattern).map_err(|e| e.to_string())
}

/// Calls `Regex::capture_names` on the compiled expression of `p`, which was
/// compiled from `p.source` (the only way a `LinePattern` is made). The
/// documentation of the crate shows that the implicit group 0 is listed
/// first and has no name.
#[verifier::external_body]
fn regex_capture_names(p: &LinePattern) -> (r: Vec<Option<String>>)
    ensures
        r.deep_view() == regex_group_names(p.source@),
        r.len() >= 1,
        r@[0] is None,
{
    p.re.capture_names().map(|n| n.map(|s| s.to_string())).collect()
}

/// Calls `Regex::captures` on the compiled expression of `p` (compiled from
/// `p.source`) and copies out the text of each group. The crate documents
/// that a match has as many groups as the expression and that group 0 (the
/// whole match) always takes part.
#[verifier::external_body]
fn regex_captures_of(p: &LinePattern, text: &str) -> (r: Option<Vec<Option<String>>>)
    ensures
        r.deep_view() == regex_captures(p.source@, text@),
        r matches Some(c) ==> c.len() == regex_group_names(p.source@).len() && c@[0] is Some,
{
    p.re.captures(text).map(|c| c.iter().map(|m| m.map(|m| m.as_str().to_string())).collect())
}

/// Calls `Regex::clone`, which gives an expression that matches exactly
/// as the one it copies.
#[verifier::external_body]
fn duplicate_pattern(p: &LinePattern) -> (r: LinePattern)
    ensures
        r.source == p.source,
        r.names.deep_view() == p.names.deep_view(),
{
    LinePattern { source: p.source.clone(), re: p.re.clone(), names: p.names.clone() }
}

/// The position of the first group named `name`, or -1.
pub open spec fn group_index(names: Seq<Option<Seq<char>>>, name: Seq<char>) -> int
    decreases names.len(),
{
    if names.len() == 0 {
        -1
    } else if names[0] == Some(name) {
        0
    } else {
        let r = group_index(names.drop_first(), name);
        if r < 0 {
            -1
        } else {
            r + 1
        }
    }
}

/// The text of the group named `name` in `caps`, if it took part.
pub open spec fn named_capture(
    caps: Seq<Option<Seq<char>>>,
    names: Seq<Option<Seq<char>>>,
    name: Seq<char>,
) -> Option<Seq<char>> {
    let j = group_index(names, name);
    if 0 <= j < caps.len() {
        caps[j]
    } else {
        None
    }
}

proof fn lemma_group_index(names: Seq<Option<Seq<char>>>, name: Seq<char>, i: int)
    requires
        0 <= i <= names.len(),
        forall|j: int| 0 <= j < i ==> names[j] != Some(name),
        i < names.len() ==> names[i] == Some(name),
    ensures
        group_index(names, name) == (if i < names.len() { i } else { -1 }),
    decreases names.len(),
{
    if names.len() > 0 && i > 0 {
        lemma_group_index(names.drop_first(), name, i - 1);
    }
}

impl LinePattern {
    /// The text of the expression.
    pub closed spec fn source_text(&self) -> Seq<char> {
        self.source@
    }

    /// The group names are those of the expression.
    pub closed spec fn wf(&self) -> bool {
        &&& self.names.deep_view() == regex_group_names(self.source@)
        &&& self.names.len() >= 1
    }

    /// Compiles `source`; an error gives the text of the compile error.
    pub fn compile(source: &str) -> (r: Result<LinePattern, String>)
        ensures
            match r {
                Ok(p) => p.wf() && p.source_text() == source@ && regex_compile_result(source@) is Ok,
                Err(m) => regex_compile_result(source@) == Err::<(), Seq<char>>(m@),
            },
    {
        match regex_new(source) {
            Ok(re) => {
                let mut p = LinePattern { source: source.to_owned(), re, names: Vec::new() };
                let names = regex_capture_names(&p);
                p.names = names;
                Ok(p)
            },
            Err(m) => Err(m),
        }
    }

    /// The text of the expression.
    pub fn source(&self) -> (r: &String)
        ensures
            r@ == self.source_text(),
    {
        &self.source
    }

    /// The names of the groups, by group index.
    pub fn group_names(&self) -> (r: &Vec<Option<String>>)
        requires
            self.wf(),
        ensures
            r.deep_view() == regex_group_names(self.source_text()),
            r.len() >= 1,
    {
        &self.names
    }

    /// The groups of the first match in `text`, by group index.
    pub fn captures(&self, text: &str) -> (r: Option<Vec<Option<String>>>)
        ensures
            r.deep_view() == regex_captures(self.source_text(), text@),
            r matches Some(c) ==> c.len() == regex_group_names(self.source_text()).len() && c@[0] is Some,
    {
        regex_captures_of(self, text)
    }

    /// A second pattern with the same expression.
    pub fn duplicate(&self) -> (r: LinePattern)
        ensures
            r.source_text() == self.source_text(),
            self.wf() ==> r.wf(),
    {
        let r = duplicate_pattern(self);
        assert(r.names.deep_view().len() == r.names.len());
        assert(self.names.deep_view().len() == self.names.len());
        r
    }

    /// The text of the group named `name` in `caps`, if it took part.
    pub fn named(&self, caps: &Vec<Option<String>>, name: &str) -> (r: Option<String>)
        requires
            self.wf(),
        ensures
            r.deep_view() == named_capture(caps.deep_view(), regex_group_names(self.source_text()), name@),
    {
        let mut j: usize = 0;
        while j < self.names.len()
            invariant
                self.wf(),
                0 <= j <= self.names.len(),
                forall|q: int| 0 <= q < j ==> self.names.deep_view()[q] != Some(name@),
            decreases self.names.len() - j,
        {
            let hit: bool = match &self.names[j] {
                Some(n) => crate::text::str_eq(n.as_str(), name),
                None => false,
            };
            if hit {
                proof {
                    lemma_group_index(self.names.deep_view(), name@, j as int);
                }
                if j < caps.len() {
                    return match &caps[j] {
                        Some(t) => Some(t.clone()),
                        None => None,
                    };
                } else {
                    return None;
                }
            }
            j = j + 1;
        }
        proof {
            lemma_group_index(self.names.deep_view(), name@, j as int);
        }
        None
    }
}

} // verus!
