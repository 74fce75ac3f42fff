//! The filter compiler: a user filter expression is split on literal commas
//! (no trimming), and each piece is compiled into a case-insensitive regular
//! expression over header names. An empty or absent expression means "keep
//! every header".

use vstd::prelude::*;
use crate::errors::Error;

verus! {

/// `regex::Regex`, a compiled regular expression, declared so that compiled
/// matchers can be stored and reused across headers.
#[verifier::external_type_specification]
#[verifier::external_body]
pub struct ExRegex(regex::Regex);

/// The pattern string that a `regex::Regex` value was compiled from
/// (the regex holds it; `regex::Regex::as_str` hands it back).
pub uninterp spec fn regex_pattern(re: regex::Regex) -> Seq<char>;

/// Whether `regex::Regex::new` accepts a pattern: syntactically valid and
/// within the default compiled-size limit.
pub uninterp spec fn regex_pattern_ok(pat: Seq<char>) -> bool;

/// Whether the regular expression compiled from `pat` matches anywhere in
/// `text`; a function of the pattern and the haystack alone.
pub uninterp spec fn regex_match(pat: Seq<char>, text: Seq<char>) -> bool;

/// Relies on `regex::Regex::new`: `Ok` exactly for acceptable patterns, and
/// the compiled value keeps the pattern it was built from.
#[verifier::external_body]
fn regex_new(pat: &str) -> (r: Option<regex::Regex>)
    ensures
        r is Some <==> regex_pattern_ok(pat@),
        r matches Some(re) ==> regex_pattern(re) == pat@,
{
    regex::Regex::new(pat).ok()
}

/// Relies on `regex::Regex::is_match`: true iff the regex matches anywhere in
/// the haystack, decided by the pattern and the haystack alone.
#[verifier::external_body]
fn regex_is_match(re: &regex::Regex, text: &str) -> (r: bool)
    ensures
        r == regex_match(regex_pattern(*re), text@),
{
    re.is_match(text)
}

/// A pattern as compiled: the case-insensitivity flag in front of the text
/// the user wrote.
pub open spec fn ci_wrap(p: Seq<char>) -> Seq<char> {
    "(?i)"@ + p
}

/// Whether one user pattern matches a header name (case-insensitively, since
/// the pattern is compiled with the `(?i)` flag).
pub open spec fn pattern_matches(p: Seq<char>, name: Seq<char>) -> bool {
    regex_match(ci_wrap(p), name)
}

/// The union filter: a header is kept when no patterns were given, or when at
/// least one pattern matches its name.
pub open spec fn spec_keep(pats: Seq<Seq<char>>, name: Seq<char>) -> bool {
    pats.len() == 0 || exists|i: int| 0 <= i < pats.len() && pattern_matches(pats[i], name)
}

/// Splitting on literal commas: a pattern is exactly the text between two
/// commas, with no whitespace trimming. The empty string splits into one
/// empty pattern.
pub open spec fn spec_split(s: Seq<char>) -> Seq<Seq<char>>
    decreases s.len(),
{
    if s.len() == 0 {
        seq![Seq::<char>::empty()]
    } else if s[0] == ',' {
        seq![Seq::<char>::empty()] + spec_split(s.drop_first())
    } else {
        let rest = spec_split(s.drop_first());
        seq![seq![s[0]] + rest[0]] + rest.drop_first()
    }
}

/// A split always yields at least one pattern.
pub proof fn lemma_split_nonempty(s: Seq<char>)
    ensures
        spec_split(s).len() >= 1,
    decreases s.len(),
{
    if s.len() != 0 {
        lemma_split_nonempty(s.drop_first());
    }
}

/// The patterns of a raw filter expression: none given means no patterns.
pub open spec fn spec_patterns_of(filters: &Option<String>) -> Seq<Seq<char>> {
    match filters {
        Option::None => Seq::empty(),
        Option::Some(f) => spec_split(f@),
    }
}

/// Splits a filter expression on literal commas.
pub fn split_patterns(s: &str) -> (r: Vec<String>)
    ensures
        r.deep_view() == spec_split(s@),
{
    let len = s.unicode_len();
    let mut out: Vec<String> = Vec::new();
    let mut cur = String::new();
    let mut i: usize = 0;
    proof {
        lemma_split_nonempty(s@);
        assert(s@.skip(0) =~= s@);
        assert(out.deep_view() + shift_head(cur@, spec_split(s@)) =~~= spec_split(s@));
    }
    while i < len
        invariant
            i <= len,
            len == s@.len(),
            spec_split(s@) =~~= out.deep_view() + shift_head(cur@, spec_split(s@.skip(i as int))),
        decreases len - i,
    {
        let ghost pre_split = spec_split(s@.skip(i as int));
        let ghost post = spec_split(s@.skip(i as int + 1));
        let ghost old_out = out.deep_view();
        let ghost old_cur = cur@;
        proof {
            lemma_split_nonempty(s@.skip(i as int + 1));
            assert(s@.skip(i as int).drop_first() =~= s@.skip(i as int + 1));
        }
        let c = s.get_char(i);
        assert(s@.skip(i as int)[0] == c);
        if c == ',' {
            assert(pre_split =~~= seq![Seq::<char>::empty()] + post);
            let done = cur;
            cur = String::new();
            out.push(done);
            proof {
                assert(out.deep_view() =~~= old_out.push(old_cur));
                assert(shift_head(old_cur, pre_split) =~~= seq![old_cur] + post);
                assert(old_out.push(old_cur) + shift_head(cur@, post) =~~= old_out + (seq![
                    old_cur,
                ] + post));
            }
        } else {
            assert(pre_split =~~= seq![seq![c] + post[0]] + post.drop_first());
            crate::strutil::push_char(&mut cur, c);
            proof {
                assert(shift_head(old_cur, pre_split) =~~= seq![old_cur + (seq![c] + post[0])]
                    + post.drop_first());
                assert(old_cur + (seq![c] + post[0]) =~= old_cur.push(c) + post[0]);
                assert(shift_head(cur@, post) =~~= shift_head(old_cur, pre_split));
            }
        }
        i = i + 1;
    }
    proof {
        assert(s@.skip(len as int) =~= Seq::<char>::empty());
        assert(shift_head(cur@, spec_split(Seq::<char>::empty())) =~~= seq![cur@]);
    }
    let ghost old_out = out.deep_view();
    let ghost last = cur@;
    out.push(cur);
    proof {
        assert(out.deep_view() =~~= old_out.push(last));
        assert(old_out + seq![last] =~~= old_out.push(last));
        assert(out.deep_view() =~~= spec_split(s@));
    }
    out
}

/// Prepends `p` onto the first piece of a split.
pub open spec fn shift_head(p: Seq<char>, pieces: Seq<Seq<char>>) -> Seq<Seq<char>> {
    seq![p + pieces[0]] + pieces.drop_first()
}

/// Every pattern in the sequence is acceptable to the regex compiler.
pub open spec fn all_patterns_ok(pats: Seq<Seq<char>>) -> bool {
    forall|i: int| 0 <= i < pats.len() ==> regex_pattern_ok(ci_wrap(#[trigger] pats[i]))
}

/// `e` names the first pattern of `pats` that the regex compiler rejects.
pub open spec fn names_first_invalid(pats: Seq<Seq<char>>, e: Error) -> bool {
    exists|k: int|
        {
            &&& 0 <= k < pats.len()
            &&& !regex_pattern_ok(ci_wrap(#[trigger] pats[k]))
            &&& e matches Error::InvalidPattern(p) && p@ == pats[k]
            &&& forall|j: int| 0 <= j < k ==> regex_pattern_ok(ci_wrap(#[trigger] pats[j]))
        }
}

/// The compiled matcher sequence, together with the patterns it was compiled
/// from. An empty set accepts every header name.
pub struct FilterSet {
    regexes: Vec<regex::Regex>,
    patterns: Ghost<Seq<Seq<char>>>,
}

impl FilterSet {
    /// The user patterns this set was compiled from.
    pub closed spec fn patterns(&self) -> Seq<Seq<char>> {
        self.patterns@
    }

    /// Each stored regex is the case-insensitive compilation of its pattern.
    pub closed spec fn wf(&self) -> bool {
        &&& self.regexes@.len() == self.patterns@.len()
        &&& forall|i: int|
            0 <= i < self.regexes@.len() ==> regex_pattern(#[trigger] self.regexes@[i]) == ci_wrap(
                self.patterns@[i],
            )
    }

    /// Compiles a filter expression: splits it on commas and compiles each
    /// piece case-insensitively. The first unacceptable pattern aborts
    /// compilation with `InvalidPattern` naming that pattern.
    pub fn compile(filters: &Option<String>) -> (r: Result<FilterSet, Error>)
        ensures
            r is Ok <==> all_patterns_ok(spec_patterns_of(filters)),
            r matches Ok(fs) ==> fs.wf() && fs.patterns() == spec_patterns_of(filters),
            r matches Err(e) ==> names_first_invalid(spec_patterns_of(filters), e),
    {
        let ghost pats = spec_patterns_of(filters);
        let pieces: Vec<String> = match filters {
            Option::None => Vec::new(),
            Option::Some(f) => split_patterns(f.as_str()),
        };
        assert(pieces.deep_view() =~~= pats);
        let mut regexes: Vec<regex::Regex> = Vec::new();
        let mut i: usize = 0;
        while i < pieces.len()
            invariant
                pats == spec_patterns_of(filters),
                i <= pieces.len(),
                pieces.deep_view() =~~= pats,
                regexes@.len() == i,
                forall|j: int|
                    0 <= j < i ==> regex_pattern(#[trigger] regexes@[j]) == ci_wrap(pats[j]),
                forall|j: int| 0 <= j < i ==> regex_pattern_ok(ci_wrap(#[trigger] pats[j])),
            decreases pieces.len() - i,
        {
            let p = &pieces[i];
            assert(p@ == pats[i as int]);
            let mut wrapped = String::new();
            wrapped.append("(?i)");
            wrapped.append(p.as_str());
            assert(wrapped@ =~= ci_wrap(pats[i as int]));
            match regex_new(wrapped.as_str()) {
                Option::Some(re) => {
                    regexes.push(re);
                },
                Option::None => {
                    let err = Error::InvalidPattern(p.clone());
                    proof {
                        let k = i as int;
                        assert({
                            &&& 0 <= k < pats.len()
                            &&& !regex_pattern_ok(ci_wrap(pats[k]))
                            &&& err matches Error::InvalidPattern(q) && q@ == pats[k]
                            &&& forall|j: int|
                                0 <= j < k ==> regex_pattern_ok(ci_wrap(#[trigger] pats[j]))
                        });
                        assert(pats =~~= spec_patterns_of(filters));
                        assert(names_first_invalid(spec_patterns_of(filters), err));
                        assert(!all_patterns_ok(spec_patterns_of(filters)));
                    }
                    return Err(err);
                },
            }
            i = i + 1;
        }
        Ok(FilterSet { regexes, patterns: Ghost(pats) })
    }

    /// Whether this set keeps a header name: yes when the set is empty, and
    /// otherwise when at least one compiled pattern matches the name.
    pub fn keeps(&self, name: &str) -> (r: bool)
        requires
            self.wf(),
        ensures
            r == spec_keep(self.patterns(), name@),
    {
        if self.regexes.len() == 0 {
            return true;
        }
        let mut i: usize = 0;
        while i < self.regexes.len()
            invariant
                self.wf(),
                i <= self.regexes@.len(),
                forall|j: int| 0 <= j < i ==> !pattern_matches(self.patterns()[j], name@),
            decreases self.regexes@.len() - i,
        {
            if regex_is_match(&self.regexes[i], name) {
                return true;
            }
            i = i + 1;
        }
        false
    }
}

} // verus!
