//! The per-root ignore filter. Rule matching itself is done by an
//! outside matcher; deciding what to ask it — the queried path made
//! root-relative, and every ancestor directory checked as well — is
//! verified here, and the ancestor pass gives the filter its key
//! property: children of an ignored directory are ignored.

use vstd::prelude::*;
use vstd::string::StringSliceAdditionalSpecFns;
use vstd::utf8::{decode_utf8, valid_utf8};
use crate::strutil::{
    bytes_eq, lemma_valid_first_not_continuation, string_from_byte_range,
};

verus! {

broadcast use vstd::utf8::encode_utf8_valid_utf8, vstd::utf8::decode_utf8_encode_utf8;

/// The rule matcher built from one root's ignore files.
#[verifier::external_type_specification]
#[verifier::external_body]
pub struct ExGitignore(ignore::gitignore::Gitignore);

/// A builder for the rule matcher.
#[verifier::external_type_specification]
#[verifier::external_body]
pub struct ExGitignoreBuilder(ignore::gitignore::GitignoreBuilder);

/// The rule state a compiled matcher holds, abstractly.
pub uninterp spec fn gitignore_model(g: ignore::gitignore::Gitignore) -> Seq<Seq<u8>>;

/// The rule state a builder holds, abstractly.
pub uninterp spec fn builder_model(b: ignore::gitignore::GitignoreBuilder) -> Seq<Seq<u8>>;

/// The rule state a fresh builder for a root starts with.
pub uninterp spec fn ignore_rules_new(root: Seq<char>) -> Seq<Seq<u8>>;

/// The rule state after one line is fed to a builder.
pub uninterp spec fn ignore_rules_add(rules: Seq<Seq<u8>>, line: Seq<char>) -> Seq<Seq<u8>>;

/// Does a rule line parse? A function of the line alone.
pub uninterp spec fn ignore_line_ok(line: Seq<char>) -> bool;

/// Does a rule state compile into a matcher? A function of the state
/// alone.
pub uninterp spec fn ignore_rules_compile_ok(rules: Seq<Seq<u8>>) -> bool;

/// The verdict of a rule state on one path: does it say "ignore"? It is
/// a function of the rules, the queried path and the directory flag
/// alone.
pub uninterp spec fn ignore_match(rules: Seq<Seq<u8>>, path: Seq<u8>, is_dir: bool) -> bool;

/// Relies on ignore::gitignore::GitignoreBuilder::new: a fresh builder
/// holds the rule state of its root and nothing else, deterministically
/// in the root.
#[verifier::external_body]
fn builder_new(root: &str) -> (b: ignore::gitignore::GitignoreBuilder)
    ensures
        builder_model(b) == ignore_rules_new(root@),
{
    ignore::gitignore::GitignoreBuilder::new(root)
}

/// Relies on ignore::gitignore::GitignoreBuilder::add_line: whether a
/// line parses depends on the line alone; feeding a parsed line is
/// deterministic in the builder's state and the line; a refused line
/// leaves the state unchanged (its only error exit comes before any
/// mutation), and the rule set continues without it.
#[verifier::external_body]
fn builder_add_line(b: &mut ignore::gitignore::GitignoreBuilder, line: &str) -> (ok: bool)
    ensures
        ok == ignore_line_ok(line@),
        ok ==> builder_model(*final(b)) == ignore_rules_add(builder_model(*old(b)), line@),
        !ok ==> builder_model(*final(b)) == builder_model(*old(b)),
{
    b.add_line(None, line).is_ok()
}

/// Relies on ignore::gitignore::GitignoreBuilder::build: whether the
/// rule state compiles is deterministic in the state, and a compiled
/// matcher carries the builder's rule state.
#[verifier::external_body]
fn builder_build(b: &ignore::gitignore::GitignoreBuilder) -> (r: Option<
    ignore::gitignore::Gitignore,
>)
    ensures
        r is Some <==> ignore_rules_compile_ok(builder_model(*b)),
        r is Some ==> gitignore_model(r->0) == builder_model(*b),
{
    b.build().ok()
}

/// Relies on ignore::gitignore::Gitignore::empty: a matcher with no
/// rules never says "ignore".
#[verifier::external_body]
fn gitignore_empty() -> (g: ignore::gitignore::Gitignore)
    ensures
        forall|p: Seq<u8>, d: bool| !(#[trigger] ignore_match(gitignore_model(g), p, d)),
{
    ignore::gitignore::Gitignore::empty()
}

/// Relies on ignore::gitignore::Gitignore::matched: whether the matcher
/// says "ignore" for this path; matching is a pure function of the
/// matcher, the path and the directory flag.
#[verifier::external_body]
fn gitignore_matched(g: &ignore::gitignore::Gitignore, path: &str, is_dir: bool) -> (r: bool)
    ensures
        r == ignore_match(gitignore_model(*g), path.spec_bytes(), is_dir),
{
    g.matched(path, is_dir).is_ignore()
}

/// The rule state after a list of lines is fed to a fresh builder for a
/// root: each line that parses is folded in, the others are dropped.
pub open spec fn spec_rules_fold(start: Seq<Seq<u8>>, lines: Seq<String>) -> Seq<Seq<u8>>
    decreases lines.len(),
{
    if lines.len() == 0 {
        start
    } else {
        spec_rules_fold(
            if ignore_line_ok(lines[0]@) {
                ignore_rules_add(start, lines[0]@)
            } else {
                start
            },
            lines.drop_first(),
        )
    }
}

/// Feeding one more line folds on the right.
proof fn lemma_rules_fold_push(start: Seq<Seq<u8>>, lines: Seq<String>, x: String)
    ensures
        spec_rules_fold(start, lines.push(x)) == (if ignore_line_ok(x@) {
            ignore_rules_add(spec_rules_fold(start, lines), x@)
        } else {
            spec_rules_fold(start, lines)
        }),
    decreases lines.len(),
{
    reveal_with_fuel(spec_rules_fold, 3);
    if lines.len() == 0 {
        assert(lines.push(x).drop_first() =~= lines);
        assert(lines.push(x)[0] == x);
    } else {
        assert(lines.push(x).drop_first() =~= lines.drop_first().push(x));
        assert(lines.push(x)[0] == lines[0]);
        let start2 = if ignore_line_ok(lines[0]@) {
            ignore_rules_add(start, lines[0]@)
        } else {
            start
        };
        lemma_rules_fold_push(start2, lines.drop_first(), x);
    }
}

/// The queried path made root-relative: the root prefix and its
/// separator stripped when present, the path kept whole otherwise.
pub open spec fn spec_rel_bytes(root: Seq<u8>, path: Seq<u8>) -> Seq<u8> {
    if path == root {
        Seq::empty()
    } else if path.len() > root.len() && path.subrange(0, root.len() as int) == root && path[root.len() as int]
        == 47 {
        path.subrange(root.len() as int + 1, path.len() as int)
    } else {
        path
    }
}

/// The filter's decision on a root-relative path: the path itself is
/// matched with the caller's flag and once more as a directory (so a
/// directory rule covers the path itself), and every ancestor (every
/// cut at a separator) is matched as a directory; any "ignore" verdict
/// ignores the path.
pub open spec fn spec_is_ignored(rules: Seq<Seq<u8>>, rel: Seq<u8>, is_dir: bool) -> bool {
    ||| ignore_match(rules, rel, is_dir)
    ||| ignore_match(rules, rel, true)
    ||| exists|c: int|
        0 < c < rel.len() && rel[c] == 47 && ignore_match(rules, #[trigger] rel.subrange(0, c), true)
}

/// The per-root ignore filter: a compiled matcher and the root it
/// belongs to.
pub struct IgnoreChecker {
    pub gitignore: ignore::gitignore::Gitignore,
    pub root: String,
}

impl IgnoreChecker {
    /// Build the filter for a root from the rule lines its ignore files
    /// hold: the matcher's rule state is exactly the fold of the lines
    /// that parse over a fresh builder for the root. Lines that do not
    /// parse are dropped and the rule set continues; only when that rule
    /// state does not compile does the filter degrade to one that
    /// ignores nothing.
    pub fn new(root: &str, lines: &Vec<String>) -> (r: IgnoreChecker)
        ensures
            r.root@ == root@,
            ({
                let rules = spec_rules_fold(ignore_rules_new(root@), lines@);
                if ignore_rules_compile_ok(rules) {
                    gitignore_model(r.gitignore) == rules
                } else {
                    forall|p: Seq<u8>, d: bool|
                        !(#[trigger] ignore_match(gitignore_model(r.gitignore), p, d))
                }
            }),
    {
        let mut builder = builder_new(root);
        let n = lines.len();
        let mut i: usize = 0;
        while i < n
            invariant
                n == lines@.len(),
                i <= n,
                builder_model(builder) == spec_rules_fold(
                    ignore_rules_new(root@),
                    lines@.subrange(0, i as int),
                ),
            decreases n - i,
        {
            let ghost prefix = lines@.subrange(0, i as int);
            let ok = builder_add_line(&mut builder, lines[i].as_str());
            proof {
                lemma_rules_fold_push(ignore_rules_new(root@), prefix, lines@[i as int]);
                assert(prefix.push(lines@[i as int]) =~= lines@.subrange(0, i as int + 1));
            }
            i += 1;
        }
        proof {
            assert(lines@.subrange(0, n as int) =~= lines@);
        }
        let gitignore = match builder_build(&builder) {
            Some(g) => g,
            None => gitignore_empty(),
        };
        IgnoreChecker { gitignore, root: root.to_owned() }
    }

    /// Is this path excluded from indexing? The path is made relative to
    /// the root, matched itself (with the caller's flag, and again as a
    /// directory), and every ancestor directory is matched as well, so
    /// that children of an ignored directory are excluded even when
    /// asked about directly.
    pub fn is_ignored(&self, path: &str, is_dir: bool) -> (r: bool)
        ensures
            r == spec_is_ignored(
                gitignore_model(self.gitignore),
                spec_rel_bytes(
                    vstd::utf8::encode_utf8(self.root@),
                    vstd::utf8::encode_utf8(path@),
                ),
                is_dir,
            ),
    {
        let rb = self.root.as_str().as_bytes();
        let pb = path.as_bytes();
        let rl = rb.len();
        let pl = pb.len();
        let ghost rel = spec_rel_bytes(rb@, pb@);
        let rel_str: String = if pl == rl && bytes_eq(pb, rb) {
            proof {
                assert(pb@ == rb@);
                assert(rel =~= Seq::<u8>::empty());
                assert(vstd::utf8::encode_utf8(Seq::<char>::empty()) =~= Seq::<u8>::empty());
                assert(decode_utf8(Seq::<u8>::empty()) =~= Seq::<char>::empty());
            }
            String::new()
        } else if pl > rl && bytes_eq(vstd::slice::slice_subrange(pb, 0, rl), rb)
            && *vstd::slice::slice_index_get(pb, rl) == 47 {
            proof {
                assert(pb@ != rb@);
                assert(rel =~= pb@.subrange(rl as int + 1, pl as int));
                crate::strutil::lemma_ascii_boundaries(pb@, rl as int);
            }
            string_from_byte_range(pb, rl + 1, pl)
        } else {
            proof {
                if pb@ == rb@ {
                    assert(pl == rl);
                    assert(false);
                }
                assert(rel =~= pb@);
            }
            path.to_owned()
        };
        proof {
            assert(vstd::utf8::encode_utf8(rel_str@) == rel);
        }
        if gitignore_matched(&self.gitignore, rel_str.as_str(), is_dir) {
            return true;
        }
        // the path itself counts as its own first ancestor: a directory
        // rule on it applies whatever the caller's flag says
        if gitignore_matched(&self.gitignore, rel_str.as_str(), true) {
            return true;
        }
        // check every proper ancestor directory
        let rel_b = rel_str.as_str().as_bytes();
        let m = rel_b.len();
        let mut c: usize = 1;
        while c < m
            invariant
                rel_b@ == rel,
                rel == spec_rel_bytes(
                    vstd::utf8::encode_utf8(self.root@),
                    vstd::utf8::encode_utf8(path@),
                ),
                valid_utf8(rel),
                m == rel.len(),
                1 <= c <= m || m == 0,
                forall|t: int|
                    0 < t < c ==> !(rel[t] == 47 && ignore_match(
                        gitignore_model(self.gitignore),
                        #[trigger] rel.subrange(0, t),
                        true,
                    )),
            decreases m - c,
        {
            if *vstd::slice::slice_index_get(rel_b, c) == 47 {
                proof {
                    lemma_valid_first_not_continuation(rel);
                }
                let prefix = string_from_byte_range(rel_b, 0, c);
                proof {
                    assert(vstd::utf8::encode_utf8(prefix@) == rel.subrange(0, c as int));
                }
                if gitignore_matched(&self.gitignore, prefix.as_str(), true) {
                    proof {
                        assert(0 < c < rel.len() && rel[c as int] == 47 && ignore_match(
                            gitignore_model(self.gitignore),
                            rel.subrange(0, c as int),
                            true,
                        ));
                    }
                    return true;
                }
            }
            c += 1;
        }
        false
    }
}

/// Ignore transitivity: when the filter excludes a directory, it
/// excludes everything below it. A child path extends the directory
/// path by a separator and a name, and the ancestor pass of
/// `is_ignored` finds the excluded directory among the child's
/// ancestors.
pub proof fn lemma_ignore_transitive(
    rules: Seq<Seq<u8>>,
    dir: Seq<u8>,
    name: Seq<u8>,
    is_dir: bool,
)
    requires
        spec_is_ignored(rules, dir, true),
        dir.len() > 0,
        name.len() > 0,
    ensures
        spec_is_ignored(rules, dir + seq![47u8] + name, is_dir),
{
    let child = dir + seq![47u8] + name;
    assert(child.len() == dir.len() + 1 + name.len());
    if ignore_match(rules, dir, true) {
        let c = dir.len() as int;
        assert(child[c] == 47);
        assert(child.subrange(0, c) =~= dir);
        assert(0 < c < child.len());
    } else {
        let c = choose|c: int|
            0 < c < dir.len() && dir[c] == 47 && ignore_match(rules, #[trigger] dir.subrange(0, c), true);
        assert(child[c] == dir[c]);
        assert(child.subrange(0, c) =~= dir.subrange(0, c));
        assert(0 < c < child.len());
    }
}

} // verus!
