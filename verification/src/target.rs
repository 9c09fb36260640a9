//! The target context: the rules by which absolute IRIs are shortened again
//! for the output document.

use crate::text::{join, lines, lines_of, str_eq, strip_prefix, trim, trimmed, views};
use vstd::prelude::*;
use vstd::std_specs::iter::IteratorSpec;

verus! {

/// What a rule makes of an IRI that begins with its base: the rest alone
/// where the prefix of the rule is empty, else the prefix, a `:` and the
/// rest.
pub open spec fn apply_rule(rule: (Seq<char>, Seq<char>), iri: Seq<char>) -> Seq<char> {
    let rest = iri.skip(rule.1.len() as int);
    if rule.0.len() == 0 {
        rest
    } else {
        rule.0 + seq![':'] + rest
    }
}

/// The compact form of `iri` under `rules`: the first rule whose base `iri`
/// begins with is applied, and without such a rule `iri` stays as it is.
pub open spec fn compact_iri(rules: Seq<(Seq<char>, Seq<char>)>, iri: Seq<char>) -> Seq<char>
    decreases rules.len(),
{
    if rules.len() == 0 {
        iri
    } else if rules[0].1.is_prefix_of(iri) {
        apply_rule(rules[0], iri)
    } else {
        compact_iri(rules.drop_first(), iri)
    }
}

/// An IRI that begins with the base of a rule, and with the base of no rule
/// before it, is compacted by that rule: to the rest behind the base where
/// the rule's prefix is empty, else to the prefix, a `:` and that rest.
pub proof fn lemma_compact_by_first_match(
    rules: Seq<(Seq<char>, Seq<char>)>,
    iri: Seq<char>,
    k: int,
)
    requires
        0 <= k < rules.len(),
        rules[k].1.is_prefix_of(iri),
        forall|j: int| 0 <= j < k ==> !(#[trigger] rules[j]).1.is_prefix_of(iri),
    ensures
        rules[k].0.len() > 0 ==> compact_iri(rules, iri) == rules[k].0 + seq![':'] + iri.skip(
            rules[k].1.len() as int,
        ),
        rules[k].0.len() == 0 ==> compact_iri(rules, iri) == iri.skip(rules[k].1.len() as int),
    decreases rules.len(),
{
    if k > 0 {
        assert(!rules[0].1.is_prefix_of(iri));
        let rest = rules.drop_first();
        assert(rest[k - 1] == rules[k]);
        assert forall|j: int| 0 <= j < k - 1 implies !(#[trigger] rest[j]).1.is_prefix_of(iri) by {
            assert(rest[j] == rules[j + 1]);
        }
        lemma_compact_by_first_match(rest, iri, k - 1);
    }
}

/// An IRI that begins with the base of no rule stays as it is.
pub proof fn lemma_compact_without_match(rules: Seq<(Seq<char>, Seq<char>)>, iri: Seq<char>)
    requires
        forall|j: int| 0 <= j < rules.len() ==> !(#[trigger] rules[j]).1.is_prefix_of(iri),
    ensures
        compact_iri(rules, iri) == iri,
    decreases rules.len(),
{
    if rules.len() > 0 {
        assert(!rules[0].1.is_prefix_of(iri));
        let rest = rules.drop_first();
        assert forall|j: int| 0 <= j < rest.len() implies !(#[trigger] rest[j]).1.is_prefix_of(
            iri,
        ) by {
            assert(rest[j] == rules[j + 1]);
        }
        lemma_compact_without_match(rest, iri);
    }
}

/// Structure holding the target context to reword a document to.
///
/// By default, this context is empty, which will result in an output
/// document containing only absolute IRIs.
#[derive(Debug)]
pub struct TargetContext {
    /// Pairs of CURIE prefixes and their respective base IRIs.
    ///
    /// For absolute IRIs that are about to be added to the output document,
    /// the processor will try to find a matching prefix in this list. If
    /// found, a CURIE will be used instead.
    ///
    /// This list may also contain an entry with an empty string prefix,
    /// which then represents the default namespace of the output document.
    pub rules: Vec<(String, String)>,
}

impl View for TargetContext {
    type V = Seq<(Seq<char>, Seq<char>)>;

    open spec fn view(&self) -> Seq<(Seq<char>, Seq<char>)> {
        Seq::new(self.rules@.len(), |i: int| (self.rules@[i].0@, self.rules@[i].1@))
    }
}

impl TargetContext {
    /// The target context without rules.
    pub fn new() -> (r: TargetContext)
        ensures
            r@ == Seq::<(Seq<char>, Seq<char>)>::empty(),
    {
        let r = TargetContext { rules: Vec::new() };
        assert(r@ =~= Seq::<(Seq<char>, Seq<char>)>::empty());
        r
    }

    /// A short-hand for adding a rule.
    pub fn add_rule(&mut self, prefix: &str, base: &str) -> (r: &mut Self)
        ensures
            r@ == old(self)@.push((prefix@, base@)),
            *final(self) == *final(r),
    {
        self.rules.push((prefix.to_owned(), base.to_owned()));
        assert(self@ =~= old(self)@.push((prefix@, base@)));
        self
    }

    /// Compact an absolute IRI according to this context.
    pub fn compact_iri(&self, iri: &str) -> (r: String)
        ensures
            r@ == compact_iri(self@, iri@),
    {
        let mut i: usize = 0;
        assert(self@.skip(0) =~= self@);
        while i < self.rules.len()
            invariant
                i <= self.rules@.len(),
                compact_iri(self@, iri@) == compact_iri(self@.skip(i as int), iri@),
            decreases self.rules@.len() - i,
        {
            let prefix = self.rules[i].0.as_str();
            let base = self.rules[i].1.as_str();
            assert(self@.skip(i as int)[0] == self@[i as int]);
            assert(self@.skip(i as int).drop_first() =~= self@.skip(i + 1));
            match strip_prefix(iri, base) {
                Some(rest) => {
                    if prefix.is_empty() {
                        // Matched the default namespace.
                        return rest.to_owned();
                    } else {
                        // Matched a prefix, generate a CURIE.
                        let mut curie = join(prefix, ":");
                        curie.append(rest);
                        proof {
                            reveal_strlit(":");
                            assert(":"@ =~= seq![':']);
                        }
                        return curie;
                    }
                },
                None => {},
            }
            i += 1;
        }
        // No match, output the absolute IRI.
        iri.to_owned()
    }
}

impl Clone for TargetContext {
    fn clone(&self) -> (r: Self)
        ensures
            r@ == self@,
    {
        let mut rules: Vec<(String, String)> = Vec::new();
        let mut i: usize = 0;
        while i < self.rules.len()
            invariant
                i <= self.rules@.len(),
                rules@.len() == i,
                forall|j: int|
                    0 <= j < i ==> (#[trigger] rules@[j]).0@ == self.rules@[j].0@ && rules@[j].1@
                        == self.rules@[j].1@,
            decreases self.rules@.len() - i,
        {
            let prefix = self.rules[i].0.clone();
            let base = self.rules[i].1.clone();
            rules.push((prefix, base));
            i += 1;
        }
        let r = TargetContext { rules };
        assert(r@ =~= self@);
        r
    }
}

impl Default for TargetContext {
    fn default() -> (r: TargetContext)
        ensures
            r@ == Seq::<(Seq<char>, Seq<char>)>::empty(),
    {
        TargetContext::new()
    }
}

/// Whether the separator of a rule, a `:` followed by a space, stands at
/// position `i` of `line`.
pub open spec fn separator_at(line: Seq<char>, i: int) -> bool {
    0 <= i && i + 1 < line.len() && line[i] == ':' && line[i + 1] == ' '
}

/// The position of the first separator in `line`, or the length of `line`
/// where it holds none.
pub open spec fn separator_index(line: Seq<char>) -> int
    decreases line.len(),
{
    if line.len() < 2 {
        line.len() as int
    } else if line[0] == ':' && line[1] == ' ' {
        0
    } else {
        1 + separator_index(line.drop_first())
    }
}

/// The rules that the lines of a description give, one rule a line: what
/// stands before the first separator of a line is the prefix, what stands
/// behind it the base. A line without separator spoils the whole.
pub open spec fn parsed_rules(lines: Seq<Seq<char>>) -> Option<Seq<(Seq<char>, Seq<char>)>>
    decreases lines.len(),
{
    if lines.len() == 0 {
        Some(Seq::empty())
    } else {
        let line = lines.last();
        let at = separator_index(line);
        match parsed_rules(lines.drop_last()) {
            Some(rules) => if at < line.len() {
                Some(rules.push((line.take(at), line.skip(at + 2))))
            } else {
                None
            },
            None => None,
        }
    }
}

/// The rules that the description of a target gives: none for a lone `-`, else
/// those of its lines, once the white space around the whole is taken off.
pub open spec fn parsed_target(input: Seq<char>) -> Option<Seq<(Seq<char>, Seq<char>)>> {
    let text = trimmed(input);
    if text == "-"@ {
        Some(Seq::empty())
    } else {
        parsed_rules(lines_of(text))
    }
}

/// `separator_index` is in range, no separator stands before it, and one
/// stands at it unless it is the length.
pub proof fn lemma_separator_index(line: Seq<char>)
    ensures
        0 <= separator_index(line) <= line.len(),
        forall|j: int| 0 <= j < separator_index(line) ==> !separator_at(line, j),
        separator_index(line) < line.len() ==> separator_at(line, separator_index(line)),
    decreases line.len(),
{
    if line.len() < 2 {
    } else if line[0] == ':' && line[1] == ' ' {
    } else {
        let rest = line.drop_first();
        lemma_separator_index(rest);
        assert forall|j: int| 0 <= j < separator_index(line) implies !separator_at(line, j) by {
            if j > 0 {
                assert(separator_at(line, j) == separator_at(rest, j - 1));
            }
        }
        if separator_index(line) < line.len() {
            assert(separator_at(rest, separator_index(rest)));
        }
    }
}

/// Any position with the properties of `separator_index` is
/// `separator_index`.
pub proof fn lemma_separator_index_is(line: Seq<char>, k: int)
    requires
        0 <= k <= line.len(),
        forall|j: int| 0 <= j < k ==> !separator_at(line, j),
        k < line.len() ==> separator_at(line, k),
    ensures
        separator_index(line) == k,
{
    lemma_separator_index(line);
}

/// The position of the first separator in `line`, counted in characters.
pub fn find_separator(line: &str) -> (r: Option<usize>)
    ensures
        match r {
            Some(at) => at + 2 <= line@.len() && at == separator_index(line@),
            None => separator_index(line@) == line@.len(),
        },
{
    let n = line.unicode_len();
    let mut chars = line.chars();
    let mut i: usize = 0;
    let mut after_colon = false;
    while i < n
        invariant
            n == line@.len(),
            i <= n,
            chars.obeys_prophetic_iter_laws(),
            chars.remaining() == line@.skip(i as int),
            after_colon == (i > 0 && line@[i - 1] == ':'),
            forall|j: int| 0 <= j && j + 1 < i ==> !separator_at(line@, j),
        decreases n - i,
    {
        let next = chars.next();
        assert(next == Some(line@[i as int]));
        if after_colon && next == Some(' ') {
            proof {
                lemma_separator_index_is(line@, i - 1);
            }
            return Some(i - 1);
        }
        assert(chars.remaining() == line@.skip(i + 1));
        after_colon = next == Some(':');
        i += 1;
    }
    proof {
        lemma_separator_index_is(line@, n as int);
    }
    None
}

/// Reads the rules of a target context from the lines of its description.
pub fn parse_rules(lines: &Vec<&str>) -> (r: Result<TargetContext, ()>)
    ensures
        match r {
            Ok(target) => parsed_rules(views(lines@)) == Some(target@),
            Err(_) => parsed_rules(views(lines@)) is None,
        },
{
    let ghost all = views(lines@);
    let mut target = TargetContext::new();
    let mut i: usize = 0;
    while i < lines.len()
        invariant
            i <= lines@.len(),
            all == views(lines@),
            parsed_rules(all.take(i as int)) == Some(target@),
        decreases lines@.len() - i,
    {
        let line = lines[i];
        assert(all.take(i + 1).drop_last() =~= all.take(i as int));
        assert(all.take(i + 1).last() == line@);
        match find_separator(line) {
            Some(at) => {
                let end = line.unicode_len();
                let prefix = line.substring_char(0, at);
                let base = line.substring_char(at + 2, end);
                target.add_rule(prefix, base);
            },
            None => {
                proof {
                    lemma_spoiled(all, i as int);
                }
                return Err(());
            },
        }
        i += 1;
    }
    assert(all.take(i as int) =~= all);
    Ok(target)
}

/// Parse the description of a target context: a lone `-` for no rule at all,
/// else one rule a line, as a prefix, a `:`, a space and a base.
pub fn parse_target(input: &str) -> (r: Result<TargetContext, ()>)
    ensures
        match r {
            Ok(target) => parsed_target(input@) == Some(target@),
            Err(_) => parsed_target(input@) is None,
        },
{
    let input = trim(input);
    if str_eq(input, "-") {
        return Ok(TargetContext::new());
    }
    let found = lines(input);
    parse_rules(&found)
}

/// A line without separator spoils every description that holds it.
proof fn lemma_spoiled(lines: Seq<Seq<char>>, i: int)
    requires
        0 <= i < lines.len(),
        separator_index(lines[i]) == lines[i].len(),
    ensures
        parsed_rules(lines) is None,
    decreases lines.len(),
{
    if i < lines.len() - 1 {
        lemma_spoiled(lines.drop_last(), i);
    }
}

} // verus!
