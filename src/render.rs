//! The text of one line of the listing.
use vstd::prelude::*;
use crate::exclude::{texts, SEPARATOR};

verus! {

/// The indentation unit, repeated once per level below the root's children.
pub open spec fn indent_unit() -> Seq<char> {
    seq!['|', ' ', ' ', ' ']
}

/// `depth` indentation units.
pub open spec fn indent(depth: nat) -> Seq<char>
    decreases depth,
{
    if depth == 0 {
        Seq::empty()
    } else {
        indent((depth - 1) as nat) + indent_unit()
    }
}

/// Components joined by the separator.
pub open spec fn join_text(components: Seq<Seq<char>>) -> Seq<char>
    decreases components.len(),
{
    if components.len() == 0 {
        Seq::empty()
    } else if components.len() == 1 {
        components[0]
    } else {
        join_text(components.drop_last()) + seq![SEPARATOR] + components.last()
    }
}

/// The line for a path relative to the root (depth = number of components)
/// followed by an annotation `meta`.
pub open spec fn line_text(relative: Seq<Seq<char>>, meta: Seq<char>) -> Seq<char> {
    indent((relative.len() - 1) as nat) + seq!['|', '-', '-'] + join_text(relative) + meta
}

/// The number of separators in `s`.
pub open spec fn separator_count(s: Seq<char>) -> nat
    decreases s.len(),
{
    if s.len() == 0 {
        0
    } else {
        separator_count(s.drop_last()) + if s.last() == SEPARATOR { 1nat } else { 0nat }
    }
}

proof fn lemma_separator_count_concat(a: Seq<char>, b: Seq<char>)
    ensures
        separator_count(a + b) == separator_count(a) + separator_count(b),
    decreases b.len(),
{
    if b.len() > 0 {
        lemma_separator_count_concat(a, b.drop_last());
        assert((a + b).drop_last() =~= a + b.drop_last());
    } else {
        assert(a + b =~= a);
    }
}

/// A path of `depth` components, none holding a separator, is written with
/// `depth - 1` separators.
pub proof fn lemma_depth_is_separators_plus_one(components: Seq<Seq<char>>)
    requires
        components.len() >= 1,
        forall|i: int| 0 <= i < components.len() ==> separator_count(#[trigger] components[i]) == 0,
    ensures
        separator_count(join_text(components)) + 1 == components.len(),
    decreases components.len(),
{
    if components.len() > 1 {
        let init = components.drop_last();
        lemma_depth_is_separators_plus_one(init);
        lemma_separator_count_concat(join_text(init), seq![SEPARATOR]);
        lemma_separator_count_concat(join_text(init) + seq![SEPARATOR], components.last());
        assert(seq![SEPARATOR].drop_last() =~= Seq::<char>::empty());
        assert(separator_count(Seq::<char>::empty()) == 0);
        assert(seq![SEPARATOR].last() == SEPARATOR);
        assert(separator_count(seq![SEPARATOR]) == separator_count(Seq::<char>::empty()) + 1);
    }
}

/// The indentation of a line at depth `depth` is `4 * (depth - 1)` characters.
pub proof fn lemma_indent_length(depth: nat)
    requires
        depth >= 1,
    ensures
        line_indent_len(depth) == 4 * (depth - 1),
{
    lemma_indent_len_units((depth - 1) as nat);
}

/// The length of the indentation in front of a line at depth `depth`.
pub open spec fn line_indent_len(depth: nat) -> nat {
    indent((depth - 1) as nat).len()
}

proof fn lemma_indent_len_units(n: nat)
    ensures
        indent(n).len() == 4 * n,
    decreases n,
{
    if n > 0 {
        lemma_indent_len_units((n - 1) as nat);
    }
}

/// Joins components with the separator.
pub fn join_components(components: &Vec<String>) -> (r: String)
    ensures
        r@ == join_text(texts(components@)),
{
    let mut out = String::new();
    let mut i: usize = 0;
    proof { reveal_strlit("/"); }
    while i < components.len()
        invariant
            i <= components@.len(),
            out@ == join_text(texts(components@.subrange(0, i as int))),
        decreases components@.len() - i,
    {
        let ghost prefix = texts(components@.subrange(0, i + 1));
        assert(prefix.drop_last() =~= texts(components@.subrange(0, i as int)));
        if i > 0 {
            out.append("/");
            proof { reveal_strlit("/"); }
            assert("/"@ =~= seq![SEPARATOR]);
        } else {
            assert(out@ =~= Seq::<char>::empty());
        }
        out.append(components[i].as_str());
        assert(out@ =~= join_text(prefix));
        i = i + 1;
    }
    assert(components@.subrange(0, components@.len() as int) == components@);
    out
}

/// Renders the line for `relative`, a path of at least one component relative
/// to the root, followed by the annotation `meta`.
pub fn render_line(relative: &Vec<String>, meta: &str) -> (r: String)
    requires
        relative@.len() >= 1,
    ensures
        r@ == line_text(texts(relative@), meta@),
{
    let depth = relative.len();
    let mut out = String::new();
    let mut d: usize = 1;
    proof { reveal_strlit("|   "); reveal_strlit("|--"); }
    while d < depth
        invariant
            1 <= d <= depth,
            out@ == indent((d - 1) as nat),
        decreases depth - d,
    {
        out.append("|   ");
        proof { reveal_strlit("|   "); }
        assert("|   "@ =~= indent_unit());
        d = d + 1;
    }
    out.append("|--");
    let joined = join_components(relative);
    out.append(joined.as_str());
    out.append(meta);
    out
}

} // verus!
