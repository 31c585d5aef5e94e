//! The URL filter: a conjunction of rules deciding whether a URL may be
//! queued and fetched.  Parsing a URL and matching an exclusion pattern
//! are delegated to the `url` and `regex` crates behind trusted
//! wrappers; everything around those calls is verified.

use vstd::prelude::*;
use vstd::string::StringExecFns;
use crate::text::{chars_of, contains_seq, is_prefix, vec_contains_char, vec_contains_seq,
    vec_is_prefix};

verus! {

/// What `url::Url::parse` extracts from a URL string: `None` when the
/// string does not parse, otherwise the host (empty when the URL has
/// none) and the path.
pub uninterp spec fn url_host_path(url: Seq<char>) -> Option<(Seq<char>, Seq<char>)>;

/// Relies on `url::Url::parse`, `Url::host_str` and `Url::path`: the
/// outcome is a function of the URL string alone.  A URL without a host
/// is reported with an empty host, as `host_str().unwrap_or("")` reads it.
#[verifier::external_body]
fn parse_host_path(url: &str) -> (r: Option<(String, String)>)
    ensures
        match r {
            None => url_host_path(url@) is None,
            Some(hp) => url_host_path(url@) == Some((hp.0@, hp.1@)),
        },
{
    match url::Url::parse(url) {
        Ok(parsed) => {
            let host = parsed.host_str().unwrap_or("").to_string();
            let path = parsed.path().to_string();
            Some((host, path))
        },
        Err(_) => None,
    }
}

/// Whether `regex::Regex::new` accepts `pattern`.
pub uninterp spec fn regex_ok(pattern: Seq<char>) -> bool;

/// Whether the regular expression `pattern` matches somewhere in `text`
/// (meaningful only when `regex_ok(pattern)` holds).
pub uninterp spec fn regex_match(pattern: Seq<char>, text: Seq<char>) -> bool;

/// Relies on `regex::Regex::new`: whether a pattern compiles depends on
/// the pattern text alone.
#[verifier::external_body]
fn regex_compiles(pattern: &str) -> (r: bool)
    ensures
        r == regex_ok(pattern@),
{
    regex::Regex::new(pattern).is_ok()
}

/// Relies on `regex::Regex::new` and `regex::Regex::is_match`: whether a
/// pattern matches a text is a function of the two strings alone.  The
/// pattern is compiled on each call; an uncompilable pattern matches
/// nothing.
#[verifier::external_body]
fn regex_text_matches(pattern: &str, text: &str) -> (r: bool)
    ensures
        r == (regex_ok(pattern@) && regex_match(pattern@, text@)),
{
    match regex::Regex::new(pattern) {
        Ok(re) => re.is_match(text),
        Err(_) => false,
    }
}

/// A named custom rule's predicate.  Each shape is a pure predicate
/// over the URL string; all registered rules must accept a URL.
pub enum RulePredicate {
    /// Accepts a URL iff it does not contain the given text.
    ForbidSubstring(String),
    /// Accepts a URL iff it starts with the given text.
    RequirePrefix(String),
}

/// Whether `rule` accepts `url`.
pub open spec fn rule_accepts(rule: RulePredicate, url: Seq<char>) -> bool {
    match rule {
        RulePredicate::ForbidSubstring(t) => !contains_seq(url, t@),
        RulePredicate::RequirePrefix(t) => is_prefix(t@, url),
    }
}

/// Error for a filter built from an exclusion pattern that the regex
/// engine refuses.
#[derive(PartialEq, Eq, Structural, Clone, Copy, Debug)]
pub struct FilterConfigError {
    /// Index into the pattern list of the first refused pattern.
    pub pattern_index: usize,
}

/// A conjunctive URL filter: fragment check, parse check, domain
/// allow-list, path-prefix allow-list, exclusion patterns over the
/// path, and named custom rules.
pub struct URLFilter {
    allowed_domains: Vec<String>,
    path_prefixes: Vec<String>,
    excluded_patterns: Vec<String>,
    custom_rules: Vec<(String, RulePredicate)>,
}

impl URLFilter {
    /// The domain allow-list.
    pub closed spec fn spec_domains(&self) -> Seq<Seq<char>> {
        self.allowed_domains.deep_view()
    }

    /// The path-prefix allow-list.
    pub closed spec fn spec_prefixes(&self) -> Seq<Seq<char>> {
        self.path_prefixes.deep_view()
    }

    /// The exclusion patterns.
    pub closed spec fn spec_patterns(&self) -> Seq<Seq<char>> {
        self.excluded_patterns.deep_view()
    }

    /// The registered custom rules in registration order.
    pub closed spec fn spec_rules(&self) -> Seq<(Seq<char>, RulePredicate)> {
        Seq::new(self.custom_rules@.len(), |i: int| (self.custom_rules@[i].0@, self.custom_rules@[i].1))
    }

    /// Every exclusion pattern compiles, and no two custom rules share
    /// a name.
    pub open spec fn wf(&self) -> bool {
        &&& (forall|i: int|
            0 <= i < self.spec_patterns().len() ==> regex_ok(#[trigger] self.spec_patterns()[i]))
        &&& (forall|i: int, j: int|
            0 <= i < j < self.spec_rules().len() ==> (#[trigger] self.spec_rules()[i]).0 != (
            #[trigger] self.spec_rules()[j]).0)
    }

    /// The filter's decision on `url`: the conjunction of all rules.
    pub open spec fn spec_accepts(&self, url: Seq<char>) -> bool {
        &&& !url.contains('#')
        &&& url_host_path(url) is Some
        &&& {
            let (host, path) = url_host_path(url)->Some_0;
            &&& self.spec_domains().contains(host)
            &&& (exists|i: int|
                0 <= i < self.spec_prefixes().len() && is_prefix(
                    #[trigger] self.spec_prefixes()[i],
                    path,
                ))
            &&& (forall|i: int|
                0 <= i < self.spec_patterns().len() ==> !regex_match(
                    #[trigger] self.spec_patterns()[i],
                    path,
                ))
            &&& (forall|i: int|
                0 <= i < self.spec_rules().len() ==> rule_accepts(
                    (#[trigger] self.spec_rules()[i]).1,
                    url,
                ))
        }
    }

    /// Builds a filter, rejecting it if some exclusion pattern does not
    /// compile; the error names the first refused pattern.
    pub fn new(
        allowed_domains: Vec<String>,
        path_prefixes: Vec<String>,
        excluded_patterns: Vec<String>,
    ) -> (r: Result<URLFilter, FilterConfigError>)
        ensures
            match r {
                Ok(f) => {
                    &&& f.wf()
                    &&& f.spec_domains() == allowed_domains.deep_view()
                    &&& f.spec_prefixes() == path_prefixes.deep_view()
                    &&& f.spec_patterns() == excluded_patterns.deep_view()
                    &&& f.spec_rules() == Seq::<(Seq<char>, RulePredicate)>::empty()
                },
                Err(e) => {
                    &&& e.pattern_index < excluded_patterns.deep_view().len()
                    &&& !regex_ok(excluded_patterns.deep_view()[e.pattern_index as int])
                    &&& (forall|i: int|
                        0 <= i < e.pattern_index ==> regex_ok(
                            #[trigger] excluded_patterns.deep_view()[i],
                        ))
                },
            },
            (r is Ok) == (forall|i: int|
                0 <= i < excluded_patterns.deep_view().len() ==> regex_ok(
                    #[trigger] excluded_patterns.deep_view()[i],
                )),
    {
        let mut i: usize = 0;
        while i < excluded_patterns.len()
            invariant
                i <= excluded_patterns@.len(),
                excluded_patterns.deep_view().len() == excluded_patterns@.len(),
                forall|j: int|
                    0 <= j < i ==> regex_ok(#[trigger] excluded_patterns.deep_view()[j]),
            decreases excluded_patterns@.len() - i,
        {
            assert(excluded_patterns.deep_view()[i as int] == excluded_patterns@[i as int]@);
            if !regex_compiles(excluded_patterns[i].as_str()) {
                return Err(FilterConfigError { pattern_index: i });
            }
            i += 1;
        }
        let f = URLFilter {
            allowed_domains,
            path_prefixes,
            excluded_patterns,
            custom_rules: Vec::new(),
        };
        assert(f.spec_rules() =~= Seq::<(Seq<char>, RulePredicate)>::empty());
        Ok(f)
    }

    /// Registers a custom rule, overwriting any rule of the same name.
    pub fn add_custom_rule(&mut self, name: String, rule: RulePredicate)
        requires
            old(self).wf(),
        ensures
            final(self).wf(),
            final(self).spec_domains() == old(self).spec_domains(),
            final(self).spec_prefixes() == old(self).spec_prefixes(),
            final(self).spec_patterns() == old(self).spec_patterns(),
            (exists|i: int|
                0 <= i < old(self).spec_rules().len() && (#[trigger] old(self).spec_rules()[i]).0
                    == name@) ==> final(self).spec_rules() == old(self).spec_rules().update(
                choose|i: int|
                    0 <= i < old(self).spec_rules().len() && (#[trigger] old(
                        self,
                    ).spec_rules()[i]).0 == name@,
                (name@, rule),
            ),
            !(exists|i: int|
                0 <= i < old(self).spec_rules().len() && (#[trigger] old(self).spec_rules()[i]).0
                    == name@) ==> final(self).spec_rules() == old(self).spec_rules().push(
                (name@, rule),
            ),
    {
        let ghost pre = self.spec_rules();
        let mut i: usize = 0;
        while i < self.custom_rules.len()
            invariant
                *self == *old(self),
                self.wf(),
                pre == self.spec_rules(),
                i <= self.custom_rules@.len(),
                forall|j: int| 0 <= j < i ==> (#[trigger] pre[j]).0 != name@,
            decreases self.custom_rules@.len() - i,
        {
            if self.custom_rules[i].0 == name {
                assert(pre[i as int].0 == name@);
                self.custom_rules.set(i, (name, rule));
                assert(self.spec_rules() =~= pre.update(i as int, (name@, rule)));
                proof {
                    let found = choose|k: int|
                        0 <= k < pre.len() && (#[trigger] pre[k]).0 == name@;
                    assert(found == i as int);
                    assert forall|a: int, b: int|
                        0 <= a < b < self.spec_rules().len() implies (
                    #[trigger] self.spec_rules()[a]).0 != (#[trigger] self.spec_rules()[b]).0 by {
                        assert(pre[a].0 != pre[b].0);
                    }
                }
                assert(self.spec_patterns() =~= old(self).spec_patterns());
                assert(self.wf());
                return;
            }
            i += 1;
        }
        self.custom_rules.push((name, rule));
        assert(self.spec_rules() =~= pre.push((name@, rule)));
        assert forall|a: int, b: int|
            0 <= a < b < self.spec_rules().len() implies (#[trigger] self.spec_rules()[a]).0 != (
        #[trigger] self.spec_rules()[b]).0 by {
            if b < pre.len() {
                assert(pre[a].0 != pre[b].0);
            } else {
                assert(pre[a].0 != name@);
            }
        }
        assert(self.spec_patterns() =~= old(self).spec_patterns());
        assert(self.wf());
    }

    /// The filter used for the reference wiki corpus: one allowed
    /// domain, one path prefix, and the namespace exclusion patterns.
    /// It succeeds exactly when the regex engine accepts all nine
    /// built-in patterns.
    pub fn wiki_default() -> (r: Result<URLFilter, FilterConfigError>)
        ensures
            (r is Ok) == (regex_ok(("Wikipedia:(.*?)")@) && regex_ok(("Special:(.*?)")@)
                && regex_ok(("Talk:(.*?)")@) && regex_ok(("User:(.*?)")@) && regex_ok(
                ("File:(.*?)")@,
            ) && regex_ok(("Template:(.*?)")@) && regex_ok(("Help:(.*?)")@) && regex_ok(
                ("Category:(.*?)")@,
            ) && regex_ok(("Portal:(.*?)")@)),
            match r {
                Ok(f) => {
                    &&& f.wf()
                    &&& f.spec_domains() =~= seq!["en.wikipedia.org"@]
                    &&& f.spec_prefixes() =~= seq!["/wiki/"@]
                    &&& f.spec_patterns() =~= seq![
                        "Wikipedia:(.*?)"@,
                        "Special:(.*?)"@,
                        "Talk:(.*?)"@,
                        "User:(.*?)"@,
                        "File:(.*?)"@,
                        "Template:(.*?)"@,
                        "Help:(.*?)"@,
                        "Category:(.*?)"@,
                        "Portal:(.*?)"@,
                    ]
                    &&& f.spec_rules() == Seq::<(Seq<char>, RulePredicate)>::empty()
                },
                Err(e) => e.pattern_index < 9,
            },
    {
        let mut domains: Vec<String> = Vec::new();
        domains.push(String::from_str("en.wikipedia.org"));
        let mut prefixes: Vec<String> = Vec::new();
        prefixes.push(String::from_str("/wiki/"));
        let mut patterns: Vec<String> = Vec::new();
        patterns.push(String::from_str("Wikipedia:(.*?)"));
        patterns.push(String::from_str("Special:(.*?)"));
        patterns.push(String::from_str("Talk:(.*?)"));
        patterns.push(String::from_str("User:(.*?)"));
        patterns.push(String::from_str("File:(.*?)"));
        patterns.push(String::from_str("Template:(.*?)"));
        patterns.push(String::from_str("Help:(.*?)"));
        patterns.push(String::from_str("Category:(.*?)"));
        patterns.push(String::from_str("Portal:(.*?)"));
        assert(domains.deep_view() =~= seq!["en.wikipedia.org"@]);
        assert(prefixes.deep_view() =~= seq!["/wiki/"@]);
        assert(patterns.deep_view() =~= seq![
            "Wikipedia:(.*?)"@,
            "Special:(.*?)"@,
            "Talk:(.*?)"@,
            "User:(.*?)"@,
            "File:(.*?)"@,
            "Template:(.*?)"@,
            "Help:(.*?)"@,
            "Category:(.*?)"@,
            "Portal:(.*?)"@,
        ]);
        let ghost pats = patterns.deep_view();
        let r = URLFilter::new(domains, prefixes, patterns);
        proof {
            // the element-wise success condition is the conjunction of
            // the nine named patterns
            let all_nine = regex_ok(("Wikipedia:(.*?)")@) && regex_ok(("Special:(.*?)")@)
                && regex_ok(("Talk:(.*?)")@) && regex_ok(("User:(.*?)")@) && regex_ok(
                ("File:(.*?)")@,
            ) && regex_ok(("Template:(.*?)")@) && regex_ok(("Help:(.*?)")@) && regex_ok(
                ("Category:(.*?)")@,
            ) && regex_ok(("Portal:(.*?)")@);
            if all_nine {
                assert forall|i: int| 0 <= i < pats.len() implies regex_ok(
                    #[trigger] pats[i],
                ) by {
                    if i == 0 {
                        assert(pats[0] == ("Wikipedia:(.*?)")@);
                    } else if i == 1 {
                        assert(pats[1] == ("Special:(.*?)")@);
                    } else if i == 2 {
                        assert(pats[2] == ("Talk:(.*?)")@);
                    } else if i == 3 {
                        assert(pats[3] == ("User:(.*?)")@);
                    } else if i == 4 {
                        assert(pats[4] == ("File:(.*?)")@);
                    } else if i == 5 {
                        assert(pats[5] == ("Template:(.*?)")@);
                    } else if i == 6 {
                        assert(pats[6] == ("Help:(.*?)")@);
                    } else if i == 7 {
                        assert(pats[7] == ("Category:(.*?)")@);
                    } else {
                        assert(pats[8] == ("Portal:(.*?)")@);
                    }
                }
            }
            if forall|i: int| 0 <= i < pats.len() ==> regex_ok(#[trigger] pats[i]) {
                assert(regex_ok(pats[0]));
                assert(regex_ok(pats[1]));
                assert(regex_ok(pats[2]));
                assert(regex_ok(pats[3]));
                assert(regex_ok(pats[4]));
                assert(regex_ok(pats[5]));
                assert(regex_ok(pats[6]));
                assert(regex_ok(pats[7]));
                assert(regex_ok(pats[8]));
            }
        }
        r
    }

    /// The filter's decision on `url`, applying every rule in order and
    /// stopping at the first failure.
    pub fn is_valid_url(&self, url: &str) -> (r: bool)
        requires
            self.wf(),
        ensures
            r == self.spec_accepts(url@),
    {
        let url_chars = chars_of(url);
        let hash = '#';
        if vec_contains_char(&url_chars, hash) {
            return false;
        }
        let parsed = parse_host_path(url);
        let (host, path) = match parsed {
            Some(hp) => hp,
            None => {
                return false;
            },
        };
        let mut domain_ok = false;
        let mut i: usize = 0;
        while i < self.allowed_domains.len()
            invariant
                i <= self.allowed_domains@.len(),
                self.spec_domains().len() == self.allowed_domains@.len(),
                domain_ok == (exists|j: int| 0 <= j < i && self.spec_domains()[j] == host@),
            decreases self.allowed_domains@.len() - i,
        {
            assert(self.spec_domains()[i as int] == self.allowed_domains@[i as int]@);
            if self.allowed_domains[i] == host {
                domain_ok = true;
            }
            i += 1;
        }
        if !domain_ok {
            assert(!self.spec_domains().contains(host@));
            return false;
        }
        let path_chars = chars_of(path.as_str());
        let mut prefix_ok = false;
        let mut i: usize = 0;
        while i < self.path_prefixes.len()
            invariant
                i <= self.path_prefixes@.len(),
                self.spec_prefixes().len() == self.path_prefixes@.len(),
                path_chars@ == path@,
                prefix_ok == (exists|j: int|
                    0 <= j < i && is_prefix(#[trigger] self.spec_prefixes()[j], path@)),
            decreases self.path_prefixes@.len() - i,
        {
            assert(self.spec_prefixes()[i as int] == self.path_prefixes@[i as int]@);
            let pfx = chars_of(self.path_prefixes[i].as_str());
            if vec_is_prefix(&path_chars, &pfx) {
                prefix_ok = true;
            }
            i += 1;
        }
        if !prefix_ok {
            return false;
        }
        let mut i: usize = 0;
        while i < self.excluded_patterns.len()
            invariant
                i <= self.excluded_patterns@.len(),
                self.spec_patterns().len() == self.excluded_patterns@.len(),
                url_host_path(url@) == Some((host@, path@)),
                forall|j: int|
                    0 <= j < i ==> !(regex_ok(#[trigger] self.spec_patterns()[j]) && regex_match(
                        self.spec_patterns()[j],
                        path@,
                    )),
            decreases self.excluded_patterns@.len() - i,
        {
            assert(self.spec_patterns()[i as int] == self.excluded_patterns@[i as int]@);
            if regex_text_matches(self.excluded_patterns[i].as_str(), path.as_str()) {
                return false;
            }
            i += 1;
        }
        let mut i: usize = 0;
        while i < self.custom_rules.len()
            invariant
                i <= self.custom_rules@.len(),
                url_chars@ == url@,
                forall|j: int|
                    0 <= j < i ==> rule_accepts((#[trigger] self.spec_rules()[j]).1, url@),
            decreases self.custom_rules@.len() - i,
        {
            assert(self.spec_rules()[i as int].1 == self.custom_rules@[i as int].1);
            let ok = match &self.custom_rules[i].1 {
                RulePredicate::ForbidSubstring(t) => {
                    let tc = chars_of(t.as_str());
                    !vec_contains_seq(&url_chars, &tc)
                },
                RulePredicate::RequirePrefix(t) => {
                    let tc = chars_of(t.as_str());
                    vec_is_prefix(&url_chars, &tc)
                },
            };
            if !ok {
                return false;
            }
            i += 1;
        }
        true
    }
}

} // verus!
