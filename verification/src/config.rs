//! The program configuration, as plain values. The surrounding program
//! reads and parses the configuration file and hands the values in.

use vstd::prelude::*;

verus! {

/// The configuration that steers where journals live and how new ones
/// start.
pub struct Config {
    /// Optional root of where to create journals.
    pub root: Option<String>,
    /// Optional default workspace; a fixed name is used when unset.
    pub default_workspace: Option<String>,
    /// Templates for new journals, by file extension.
    pub template: Option<Vec<(String, String)>>,
}

/// The first template text recorded under an extension.
pub open spec fn spec_template_lookup(ts: Seq<(Seq<char>, Seq<char>)>, ext: Seq<char>) -> Option<
    Seq<char>,
>
    decreases ts.len(),
{
    if ts.len() == 0 {
        None
    } else if ts[0].0 == ext {
        Some(ts[0].1)
    } else {
        spec_template_lookup(ts.drop_first(), ext)
    }
}

/// The templates as pairs of sequences.
pub open spec fn templates_view(ts: Seq<(String, String)>) -> Seq<(Seq<char>, Seq<char>)> {
    ts.map_values(|t: (String, String)| (t.0@, t.1@))
}

impl Config {
    /// A configuration with nothing set.
    pub fn empty() -> (r: Config)
        ensures
            r.root is None,
            r.default_workspace is None,
            r.template is None,
    {
        Config { root: None, default_workspace: None, template: None }
    }

    /// The template recorded for a file extension, if any.
    pub fn template_for(&self, ext: &String) -> (r: Option<&String>)
        ensures
            match self.template {
                None => r is None,
                Some(ts) => match r {
                    Some(t) => spec_template_lookup(templates_view(ts@), ext@) == Some(t@),
                    None => spec_template_lookup(templates_view(ts@), ext@) is None,
                },
            },
    {
        let ts = match &self.template {
            None => {
                return None;
            },
            Some(ts) => ts,
        };
        let ghost tv = templates_view(ts@);
        let mut i: usize = 0;
        while i < ts.len()
            invariant
                i <= tv.len(),
                self.template matches Some(v) && v@ == ts@,
                tv == templates_view(ts@),
                tv.len() == ts@.len(),
                forall|j| 0 <= j < i ==> (#[trigger] tv[j]).0 != ext@,
            decreases ts@.len() - i,
        {
            proof {
                assert(tv[i as int] == (ts@[i as int].0@, ts@[i as int].1@));
            }
            let t = &ts[i];
            if t.0.eq(ext) {
                proof {
                    lemma_template_lookup_skip(tv, ext@, i as int);
                }
                return Some(&t.1);
            }
            i = i + 1;
        }
        proof {
            lemma_template_lookup_skip(tv, ext@, i as int);
        }
        None
    }
}

/// A lookup that passed the first `i` templates without a match is a lookup
/// in the rest.
proof fn lemma_template_lookup_skip(ts: Seq<(Seq<char>, Seq<char>)>, ext: Seq<char>, i: int)
    requires
        0 <= i <= ts.len(),
        forall|j| 0 <= j < i ==> (#[trigger] ts[j]).0 != ext,
    ensures
        spec_template_lookup(ts, ext) == spec_template_lookup(ts.skip(i), ext),
    decreases i,
{
    if i > 0 {
        lemma_template_lookup_skip(ts.drop_first(), ext, i - 1);
        assert(ts.drop_first().skip(i - 1) =~= ts.skip(i));
    } else {
        assert(ts.skip(0) =~= ts);
    }
}

} // verus!
