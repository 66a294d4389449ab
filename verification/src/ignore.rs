use crate::bytes::{
    bytes_eq, copy_range, find_byte, index_of, lemma_first_index_from, lemma_first_index_skip,
    names_view, trim_end_len, trim_start_len, trimmed_end, trimmed_start,
};
use crate::error::GitError;
use crate::repo::GitRepo;
use crate::paths::{dir_part, dir_part_len, lemma_dir_part, parent_of, SLASH};
use vstd::prelude::*;
use vstd::string::StringSliceAdditionalSpecFns;
use vstd::utf8::valid_utf8;

verus! {

/// Whether a glob pattern matches a path, both given as the bytes of their
/// text, as the `glob` crate has it: `None` where the crate refuses the
/// pattern. The rules of matching are not written out here.
pub uninterp spec fn glob_match(pattern: Seq<u8>, path: Seq<u8>) -> Option<bool>;

/// Calls `glob::Pattern::new` on the pattern and `Pattern::matches` on what it
/// gives. The contract only names the outcome.
#[verifier::external_body]
pub(crate) fn glob_matches(pattern: &str, path: &str) -> (out: Option<bool>)
    ensures
        out == glob_match(pattern.spec_bytes(), path.spec_bytes()),
{
    let compiled = glob::Pattern::new(pattern).ok()?;
    Some(compiled.matches(path))
}

/// Calls `std::str::from_utf8`, which gives the text that the bytes encode and
/// fails where they are not valid UTF-8.
#[verifier::external_body]
pub(crate) fn utf8_text(bytes: &[u8]) -> (text: Option<&str>)
    ensures
        match text {
            Some(t) => valid_utf8(bytes@) && t.spec_bytes() == bytes@,
            None => !valid_utf8(bytes@),
        },
{
    std::str::from_utf8(bytes).ok()
}

/// Whether a pattern matches a path: `None` where one of them is not UTF-8
/// text or the pattern is no glob.
pub open spec fn pattern_match(pattern: Seq<u8>, path: Seq<u8>) -> Option<bool> {
    if valid_utf8(pattern) && valid_utf8(path) {
        glob_match(pattern, path)
    } else {
        None
    }
}

/// Whether a pattern matches a path.
pub fn pattern_matches(pattern: &[u8], path: &[u8]) -> (out: Option<bool>)
    ensures
        out == pattern_match(pattern@, path@),
{
    match utf8_text(pattern) {
        Some(glob) => match utf8_text(path) {
            Some(text) => glob_matches(glob, text),
            None => None,
        },
        None => None,
    }
}

/// A rule: a pattern, and whether a match means ignored (`true`) or not
/// ignored (`false`).
pub type Rule = (Vec<u8>, bool);

/// The rules of a repository: those that hold everywhere, and those that
/// hold below one directory.
#[derive(Debug, Clone, PartialEq, Eq)]
pub struct GitIgnore {
    /// The rules that hold everywhere, in the order in which they were read.
    pub absolute: Vec<Rule>,
    /// For each directory with rules of its own, the directory and its rules.
    /// Where a directory occurs twice, the first occurrence counts.
    pub scoped: Vec<(Vec<u8>, Vec<Rule>)>,
}

/// The views of a run of rules.
pub open spec fn rules_view(rules: Seq<Rule>) -> Seq<(Seq<u8>, bool)> {
    Seq::new(rules.len(), |i: int| (rules[i].0@, rules[i].1))
}

/// The views of the rules of each directory.
pub open spec fn scoped_view(scoped: Seq<(Vec<u8>, Vec<Rule>)>) -> Seq<
    (Seq<u8>, Seq<(Seq<u8>, bool)>),
> {
    Seq::new(scoped.len(), |i: int| (scoped[i].0@, rules_view(scoped[i].1@)))
}

/// Whether a rule's pattern matches a path.
pub open spec fn rule_matches(pattern: Seq<u8>, path: Seq<u8>) -> bool {
    pattern_match(pattern, path) == Some(true)
}

/// What the rules say of a path: the polarity of the last rule that matches,
/// or `None` where no rule matches.
pub open spec fn last_match(rules: Seq<(Seq<u8>, bool)>, path: Seq<u8>) -> Option<bool>
    decreases rules.len(),
{
    if rules.len() == 0 {
        None
    } else if rule_matches(rules.last().0, path) {
        Some(rules.last().1)
    } else {
        last_match(rules.drop_last(), path)
    }
}

/// The rules of a directory: those of the first pair with that directory.
pub open spec fn rules_of(scoped: Seq<(Seq<u8>, Seq<(Seq<u8>, bool)>)>, dir: Seq<u8>) -> Option<
    Seq<(Seq<u8>, bool)>,
>
    decreases scoped.len(),
{
    if scoped.len() == 0 {
        None
    } else if scoped[0].0 == dir {
        Some(scoped[0].1)
    } else {
        rules_of(scoped.skip(1), dir)
    }
}

/// A path as the rules of a directory above it see it: without the directory
/// and the slash behind it.
pub open spec fn relative_to(dir: Seq<u8>, path: Seq<u8>) -> Seq<u8> {
    if dir.len() == 0 {
        path
    } else {
        path.skip(dir.len() as int + 1)
    }
}

/// What the rules of `dir` and of the directories above it say of a path: the
/// nearest directory with a rule that matches decides.
pub open spec fn verdict_from(
    scoped: Seq<(Seq<u8>, Seq<(Seq<u8>, bool)>)>,
    path: Seq<u8>,
    dir: Seq<u8>,
) -> Option<bool>
    decreases dir.len(),
{
    let here = match rules_of(scoped, dir) {
        Some(rules) => last_match(rules, relative_to(dir, path)),
        None => None,
    };
    if here is Some {
        here
    } else if dir.len() == 0 {
        None
    } else {
        proof {
            lemma_dir_part(dir.drop_last());
        }
        verdict_from(scoped, path, dir_part(dir.drop_last()))
    }
}

/// What the rules of the directories above a path say of it.
pub open spec fn scoped_verdict(scoped: Seq<(Seq<u8>, Seq<(Seq<u8>, bool)>)>, path: Seq<u8>) -> Option<
    bool,
> {
    match parent_of(path) {
        None => None,
        Some(dir) => verdict_from(scoped, path, dir),
    }
}

/// Whether a path is ignored: as the directories above it say, or else as the
/// rules that hold everywhere say, or else not.
pub open spec fn ignored(
    absolute: Seq<(Seq<u8>, bool)>,
    scoped: Seq<(Seq<u8>, Seq<(Seq<u8>, bool)>)>,
    path: Seq<u8>,
) -> bool {
    match scoped_verdict(scoped, path) {
        Some(verdict) => verdict,
        None => match last_match(absolute, path) {
            Some(verdict) => verdict,
            None => false,
        },
    }
}

/// A line without the white space at its ends.
pub open spec fn trimmed(line: Seq<u8>) -> Seq<u8> {
    trimmed_start(trimmed_end(line))
}

/// The rule that a line holds: none for an empty line or a comment; a
/// negation behind `!`; the rest of the line as it is behind a backslash;
/// else the line.
pub open spec fn parsed_line(line: Seq<u8>) -> Option<(Seq<u8>, bool)> {
    let text = trimmed(line);
    if text.len() == 0 || text[0] == 35 {
        None
    } else if text[0] == 33 {
        Some((text.skip(1), false))
    } else if text[0] == 92 {
        Some((text.skip(1), true))
    } else {
        Some((text, true))
    }
}

/// The rules that a text holds, line by line.
pub open spec fn parsed_rules(text: Seq<u8>) -> Seq<(Seq<u8>, bool)>
    decreases text.len(),
{
    if text.len() == 0 {
        Seq::empty()
    } else {
        let end = index_of(text, 10u8);
        let first = match parsed_line(text.take(end)) {
            Some(rule) => seq![rule],
            None => Seq::empty(),
        };
        if end < text.len() {
            proof {
                lemma_first_index_from(text, 10u8, 0);
            }
            first + parsed_rules(text.skip(end + 1))
        } else {
            first
        }
    }
}

impl GitRepo {
    /// The rule that a line holds.
    pub fn gitignore_parse_line(raw: &[u8]) -> (rule: Option<Rule>)
        ensures
            match rule {
                Some((pattern, polarity)) => parsed_line(raw@) == Some((pattern@, polarity)),
                None => parsed_line(raw@) is None,
            },
    {
        let end = trim_end_len(raw);
        let head = &raw[0..end];
        assert(head@ =~= trimmed_end(raw@));
        let start = trim_start_len(head);
        let text = &head[start..end];
        assert(text@ =~= trimmed(raw@));
        if text.len() == 0 || text[0] == 35 {
            None
        } else if text[0] == 33 {
            let pattern = copy_range(text, 1, text.len());
            assert(pattern@ =~= text@.skip(1));
            Some((pattern, false))
        } else if text[0] == 92 {
            let pattern = copy_range(text, 1, text.len());
            assert(pattern@ =~= text@.skip(1));
            Some((pattern, true))
        } else {
            let pattern = copy_range(text, 0, text.len());
            assert(pattern@ =~= text@);
            Some((pattern, true))
        }
    }

    /// The rules that a text holds, line by line.
    pub fn gitignore_parse(text: &[u8]) -> (rules: Vec<Rule>)
        ensures
            rules_view(rules@) == parsed_rules(text@),
    {
        let mut rules: Vec<Rule> = Vec::new();
        let mut at: usize = 0;
        assert(text@.skip(0) =~= text@);
        assert(rules_view(rules@) + parsed_rules(text@) =~= parsed_rules(text@));
        while at < text.len()
            invariant
                at <= text@.len(),
                rules_view(rules@) + parsed_rules(text@.skip(at as int)) == parsed_rules(text@),
            decreases text@.len() - at,
        {
            let ghost rest = text@.skip(at as int);
            let ghost before = rules_view(rules@);
            let end = find_byte(text, 10u8, at);
            proof {
                lemma_first_index_skip(text@, 10u8, at as int);
                assert(text@.subrange(at as int, end as int) =~= rest.take(end - at));
            }
            let ghost first = match parsed_line(rest.take(end - at)) {
                Some(rule) => seq![rule],
                None => Seq::empty(),
            };
            match GitRepo::gitignore_parse_line(&text[at..end]) {
                Some(rule) => {
                    rules.push(rule);
                },
                None => {},
            }
            assert(rules_view(rules@) =~= before + first);
            if end < text.len() {
                assert(rest.skip(end - at + 1) =~= text@.skip(end + 1));
                assert((before + first) + parsed_rules(text@.skip(end + 1)) =~= before + (first
                    + parsed_rules(text@.skip(end + 1))));
                at = end + 1;
            } else {
                assert(text@.skip(text@.len() as int).len() == 0);
                assert((before + first) + parsed_rules(text@.skip(text@.len() as int)) =~= before
                    + first);
                at = text.len();
            }
        }
        assert(rules_view(rules@) + Seq::<(Seq<u8>, bool)>::empty() =~= rules_view(rules@));
        rules
    }
}

impl GitIgnore {
    /// No rules.
    pub fn new() -> (rules: Self)
        ensures
            rules.absolute@.len() == 0,
            rules.scoped@.len() == 0,
    {
        GitIgnore { absolute: Vec::new(), scoped: Vec::new() }
    }

    /// What the rules say of a path: the polarity of the last rule that
    /// matches, or `None` where no rule matches.
    pub fn check_ignore_file(rules: &Vec<Rule>, path: &[u8]) -> (verdict: Option<bool>)
        ensures
            verdict == last_match(rules_view(rules@), path@),
    {
        let ghost all = rules_view(rules@);
        let mut verdict: Option<bool> = None;
        let mut i: usize = 0;
        assert(all.take(0) =~= Seq::<(Seq<u8>, bool)>::empty());
        while i < rules.len()
            invariant
                i <= rules@.len(),
                all == rules_view(rules@),
                verdict == last_match(all.take(i as int), path@),
            decreases rules@.len() - i,
        {
            let ghost longer = all.take(i + 1);
            assert(longer.drop_last() =~= all.take(i as int));
            assert(longer.last() == (rules@[i as int].0@, rules@[i as int].1));
            match pattern_matches(rules[i].0.as_slice(), path) {
                Some(true) => {
                    verdict = Some(rules[i].1);
                },
                _ => {},
            }
            i = i + 1;
        }
        assert(all.take(rules@.len() as int) =~= all);
        verdict
    }

    /// The rules of a directory.
    fn rules_for<'a>(scoped: &'a Vec<(Vec<u8>, Vec<Rule>)>, dir: &[u8]) -> (rules: Option<
        &'a Vec<Rule>,
    >)
        ensures
            match rules {
                Some(r) => rules_of(scoped_view(scoped@), dir@) == Some(rules_view(r@)),
                None => rules_of(scoped_view(scoped@), dir@) is None,
            },
    {
        let ghost all = scoped_view(scoped@);
        let mut i: usize = 0;
        assert(all.skip(0) =~= all);
        while i < scoped.len()
            invariant
                i <= scoped@.len(),
                all == scoped_view(scoped@),
                rules_of(all, dir@) == rules_of(all.skip(i as int), dir@),
            decreases scoped@.len() - i,
        {
            let ghost rest = all.skip(i as int);
            assert(rest[0] == all[i as int]);
            assert(rest.skip(1) =~= all.skip(i + 1));
            if bytes_eq(scoped[i].0.as_slice(), dir) {
                return Some(&scoped[i].1);
            }
            i = i + 1;
        }
        None
    }

    /// What the rules of the directories above a path say of it: the nearest
    /// directory with a rule that matches decides.
    pub fn check_ignore_scoped(scoped: &Vec<(Vec<u8>, Vec<Rule>)>, path: &[u8]) -> (verdict: Option<
        bool,
    >)
        ensures
            verdict == scoped_verdict(scoped_view(scoped@), path@),
    {
        if path.len() == 0 {
            return None;
        }
        let ghost all = scoped_view(scoped@);
        assert(path@.drop_last() =~= path@.take(path@.len() - 1));
        let mut len: usize = dir_part_len(path, path.len() - 1);
        loop
            invariant
                len < path@.len(),
                all == scoped_view(scoped@),
                scoped_verdict(all, path@) == verdict_from(all, path@, path@.take(len as int)),
            decreases len,
        {
            let dir = &path[0..len];
            assert(dir@ =~= path@.take(len as int));
            match GitIgnore::rules_for(scoped, dir) {
                Some(rules) => {
                    let rest: &[u8] = if len == 0 {
                        path
                    } else {
                        assert(len < path.len());
                        &path[len + 1..path.len()]
                    };
                    assert(rest@ =~= relative_to(dir@, path@));
                    match GitIgnore::check_ignore_file(rules, rest) {
                        Some(verdict) => {
                            return Some(verdict);
                        },
                        None => {},
                    }
                },
                None => {},
            }
            if len == 0 {
                return None;
            }
            assert(dir@.drop_last() =~= path@.take(len - 1));
            let next = dir_part_len(path, len - 1);
            len = next;
        }
    }

    /// What the rules that hold everywhere say of a path; not ignored where
    /// none matches.
    pub fn check_ignore_absolute(rules: &Vec<Rule>, path: &[u8]) -> (verdict: bool)
        ensures
            verdict == match last_match(rules_view(rules@), path@) {
                Some(v) => v,
                None => false,
            },
    {
        match GitIgnore::check_ignore_file(rules, path) {
            Some(verdict) => verdict,
            None => false,
        }
    }

    /// Whether a path, relative to the work tree, is ignored. Fails with
    /// `MustBeRelative` for a path that begins with a slash.
    pub fn check_ignore(&self, path: &[u8]) -> (out: Result<bool, GitError>)
        ensures
            match out {
                Ok(verdict) => !(path@.len() > 0 && path@[0] == SLASH) && verdict == ignored(
                    rules_view(self.absolute@),
                    scoped_view(self.scoped@),
                    path@,
                ),
                Err(e) => path@.len() > 0 && path@[0] == SLASH && e == GitError::MustBeRelative,
            },
    {
        if path.len() > 0 && path[0] == SLASH {
            return Err(GitError::MustBeRelative);
        }
        match GitIgnore::check_ignore_scoped(&self.scoped, path) {
            Some(verdict) => Ok(verdict),
            None => Ok(GitIgnore::check_ignore_absolute(&self.absolute, path)),
        }
    }
}

/// The last rule that matches decides: the verdict is the polarity of a rule
/// that matches and that no matching rule follows. So a negation behind a
/// positive rule flips the verdict, and a positive rule behind a negation
/// flips it back.
pub proof fn lemma_last_match_wins(rules: Seq<(Seq<u8>, bool)>, path: Seq<u8>, at: int)
    requires
        0 <= at < rules.len(),
        rule_matches(rules[at].0, path),
        forall|j: int| at < j < rules.len() ==> !rule_matches((#[trigger] rules[j]).0, path),
    ensures
        last_match(rules, path) == Some(rules[at].1),
    decreases rules.len() - at,
{
    if at < rules.len() - 1 {
        let shorter = rules.drop_last();
        assert(!rule_matches(rules[rules.len() - 1].0, path));
        assert(shorter[at] == rules[at]);
        assert forall|j: int| at < j < shorter.len() implies !rule_matches(
            (#[trigger] shorter[j]).0,
            path,
        ) by {
            assert(shorter[j] == rules[j]);
        }
        lemma_last_match_wins(shorter, path, at);
    }
}

/// Where no rule matches, the rules say nothing.
pub proof fn lemma_no_match(rules: Seq<(Seq<u8>, bool)>, path: Seq<u8>)
    requires
        forall|j: int| 0 <= j < rules.len() ==> !rule_matches((#[trigger] rules[j]).0, path),
    ensures
        last_match(rules, path) is None,
    decreases rules.len(),
{
    if rules.len() > 0 {
        let shorter = rules.drop_last();
        assert(!rule_matches(rules[rules.len() - 1].0, path));
        assert forall|j: int| 0 <= j < shorter.len() implies !rule_matches(
            (#[trigger] shorter[j]).0,
            path,
        ) by {
            assert(shorter[j] == rules[j]);
        }
        lemma_no_match(shorter, path);
    }
}

/// The name of a file of rules: `.gitignore`.
pub open spec fn ignore_file_name() -> Seq<u8> {
    seq![46u8, 103u8, 105u8, 116u8, 105u8, 103u8, 110u8, 111u8, 114u8, 101u8]
}

/// The directory whose rules a staged file holds: the one that holds the file,
/// where the file is named `.gitignore`; `None` for any other file.
pub open spec fn ignore_dir_of(name: Seq<u8>) -> Option<Seq<u8>> {
    if name == ignore_file_name() {
        Some(Seq::empty())
    } else if name.len() > 11 && name.skip(name.len() - 11) == seq![SLASH] + ignore_file_name() {
        Some(name.take(name.len() - 11))
    } else {
        None
    }
}

/// The rules of all the texts, one text after the other.
pub open spec fn absolute_rules(texts: Seq<Seq<u8>>) -> Seq<(Seq<u8>, bool)>
    decreases texts.len(),
{
    if texts.len() == 0 {
        Seq::empty()
    } else {
        absolute_rules(texts.drop_last()) + parsed_rules(texts.last())
    }
}

/// The rules of each directory among the first `count` staged files, the
/// later files first, so that a later file counts where a directory occurs
/// twice.
pub open spec fn scoped_rules(staged: Seq<(Seq<u8>, Seq<u8>)>, count: nat) -> Seq<
    (Seq<u8>, Seq<(Seq<u8>, bool)>),
>
    decreases count,
{
    if count == 0 {
        Seq::empty()
    } else {
        let earlier = scoped_rules(staged, (count - 1) as nat);
        match ignore_dir_of(staged[count - 1].0) {
            Some(dir) => seq![(dir, parsed_rules(staged[count - 1].1))] + earlier,
            None => earlier,
        }
    }
}

impl GitRepo {
    /// The directory whose rules a staged file holds, where it is a file of
    /// rules.
    pub fn gitignore_dir(name: &[u8]) -> (dir: Option<Vec<u8>>)
        ensures
            match dir {
                Some(d) => ignore_dir_of(name@) == Some(d@),
                None => ignore_dir_of(name@) is None,
            },
    {
        let file: [u8; 10] = [46u8, 103u8, 105u8, 116u8, 105u8, 103u8, 110u8, 111u8, 114u8, 101u8];
        assert(file@ =~= ignore_file_name());
        if bytes_eq(name, file.as_slice()) {
            return Some(Vec::new());
        }
        if name.len() > 11 {
            let cut = name.len() - 11;
            let tail = &name[cut..name.len()];
            assert(tail@ =~= name@.skip(cut as int));
            if tail[0] == SLASH && bytes_eq(&tail[1..11], file.as_slice()) {
                assert(tail@ =~= seq![SLASH] + ignore_file_name());
                let dir = copy_range(name, 0, cut);
                assert(dir@ =~= name@.take(cut as int));
                return Some(dir);
            }
            assert(tail@ != seq![SLASH] + ignore_file_name()) by {
                if tail@ == seq![SLASH] + ignore_file_name() {
                    assert(tail@[0] == SLASH);
                    assert(tail@.subrange(1, 11) =~= ignore_file_name());
                }
            }
        }
        None
    }

    /// Gathers the rules of a repository: those that hold everywhere from
    /// the texts of the exclude files, and those of each directory from the
    /// staged files named `.gitignore`, given with their contents.
    pub fn gitignore_read(
        texts: &Vec<Vec<u8>>,
        staged: &Vec<(Vec<u8>, Vec<u8>)>,
    ) -> (rules: GitIgnore)
        ensures
            rules_view(rules.absolute@) == absolute_rules(names_view(texts@)),
            scoped_view(rules.scoped@) == scoped_rules(crate::refs::pair_views(staged@), staged@.len()),
    {
        let mut rules = GitIgnore::new();
        let ghost all = names_view(texts@);
        let mut i: usize = 0;
        assert(all.take(0) =~= Seq::<Seq<u8>>::empty());
        assert(rules_view(rules.absolute@) =~= absolute_rules(all.take(0)));
        while i < texts.len()
            invariant
                i <= texts@.len(),
                all == names_view(texts@),
                rules.scoped@.len() == 0,
                rules_view(rules.absolute@) == absolute_rules(all.take(i as int)),
            decreases texts@.len() - i,
        {
            let ghost before = rules_view(rules.absolute@);
            let mut more = GitRepo::gitignore_parse(texts[i].as_slice());
            let ghost added = rules_view(more@);
            rules.absolute.append(&mut more);
            proof {
                let longer = all.take(i + 1);
                assert(longer.drop_last() =~= all.take(i as int));
                assert(longer.last() == texts@[i as int]@);
                assert(rules_view(rules.absolute@) =~= before + added);
            }
            i = i + 1;
        }
        assert(all.take(texts@.len() as int) =~= all);
        let ghost files = crate::refs::pair_views(staged@);
        let mut k: usize = 0;
        assert(scoped_view(rules.scoped@) =~= scoped_rules(files, 0));
        while k < staged.len()
            invariant
                k <= staged@.len(),
                files == crate::refs::pair_views(staged@),
                rules_view(rules.absolute@) == absolute_rules(all),
                scoped_view(rules.scoped@) == scoped_rules(files, k as nat),
            decreases staged@.len() - k,
        {
            let ghost before = scoped_view(rules.scoped@);
            assert(files[k as int] == (staged@[k as int].0@, staged@[k as int].1@));
            match GitRepo::gitignore_dir(staged[k].0.as_slice()) {
                Some(dir) => {
                    let parsed = GitRepo::gitignore_parse(staged[k].1.as_slice());
                    let ghost entry = (dir@, rules_view(parsed@));
                    rules.scoped.insert(0, (dir, parsed));
                    assert(scoped_view(rules.scoped@) =~= seq![entry] + before);
                },
                None => {},
            }
            k = k + 1;
        }
        rules
    }
}

} // verus!
