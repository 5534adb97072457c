//! Small display helpers: joining collections of already-formatted items
//! with a separator, and the escaped / comma / spaced wrapper types.

use vstd::prelude::*;
use vstd::string::StringExecFns;
use crate::escape::escape_attr;
use crate::escape::escape_attr_push;

verus! {

/// The items joined by the separator: nothing for an empty sequence, the
/// single item alone, and otherwise the head followed by the separator and
/// the joined tail.
pub open spec fn join_spec(sep: Seq<char>, items: Seq<Seq<char>>) -> Seq<char>
    decreases items.len(),
{
    if items.len() == 0 {
        Seq::empty()
    } else if items.len() == 1 {
        items[0]
    } else {
        items[0] + sep + join_spec(sep, items.drop_first())
    }
}

proof fn lemma_join_snoc(sep: Seq<char>, items: Seq<Seq<char>>, x: Seq<char>)
    requires
        items.len() >= 1,
    ensures
        join_spec(sep, items.push(x)) == join_spec(sep, items) + sep + x,
    decreases items.len(),
{
    if items.len() == 1 {
        assert(items.push(x).drop_first() =~= seq![x]);
        assert(items.push(x)[0] == items[0]);
        assert(join_spec(sep, seq![x]) == x);
        assert(join_spec(sep, items.push(x)) == items[0] + sep + x);
    } else {
        assert(items.push(x).drop_first() =~= items.drop_first().push(x));
        lemma_join_snoc(sep, items.drop_first(), x);
        assert(items[0] + sep + (join_spec(sep, items.drop_first()) + sep + x) =~= (items[0] + sep
            + join_spec(sep, items.drop_first())) + sep + x);
    }
}

/// Joins the items with the given separator between each pair.
pub fn join(sep: &str, collection: &Vec<String>) -> (r: String)
    ensures
        r@ == join_spec(sep@, collection.deep_view()),
{
    let ghost items = collection.deep_view();
    let mut out = String::new();
    let mut i: usize = 0;
    while i < collection.len()
        invariant
            items == collection.deep_view(),
            items.len() == collection@.len(),
            i <= collection@.len(),
            out@ == join_spec(sep@, items.take(i as int)),
        decreases collection@.len() - i,
    {
        proof {
            assert(items[i as int] == collection@[i as int]@);
            if i == 0 {
                assert(items.take(1) =~= seq![items[0]]);
            } else {
                assert(items.take(i as int).push(items[i as int]) =~= items.take(i + 1 as int));
                lemma_join_snoc(sep@, items.take(i as int), items[i as int]);
            }
        }
        if i > 0 {
            out.append(sep);
        }
        out.append(collection[i].as_str());
        i = i + 1;
    }
    proof {
        assert(items.take(collection@.len() as int) =~= items);
    }
    out
}

/// Joins the items with a space between each pair.
pub fn spaced(collection: &Vec<String>) -> (r: String)
    ensures
        r@ == join_spec(" "@, collection.deep_view()),
{
    join(" ", collection)
}

/// Joins the items with a comma between each pair.
pub fn csv(collection: &Vec<String>) -> (r: String)
    ensures
        r@ == join_spec(","@, collection.deep_view()),
{
    join(",", collection)
}

/// Wraps already-formatted text; rendering it escapes `&<>"'` with their
/// equivalent entities.
pub struct Escape(pub String);

impl Escape {
    /// The escaped text.
    pub fn to_string(&self) -> (r: String)
        ensures
            r@ == escape_attr(self.0@),
    {
        let mut out = String::new();
        escape_attr_push(self.0.as_str(), &mut out);
        out
    }
}

/// Wraps the parts of one item; rendering joins them with commas.
pub struct CommaFmt(pub Vec<String>);

impl CommaFmt {
    /// The comma-joined parts.
    pub fn to_string(&self) -> (r: String)
        ensures
            r@ == join_spec(","@, self.0.deep_view()),
    {
        join(",", &self.0)
    }
}

/// Each item followed by one space, in order; note the trailing space
/// after the last item.
pub open spec fn spaced_set_spec(items: Seq<Seq<char>>) -> Seq<char>
    decreases items.len(),
{
    if items.len() == 0 {
        Seq::empty()
    } else {
        items[0] + " "@ + spaced_set_spec(items.drop_first())
    }
}

proof fn lemma_spaced_set_snoc(items: Seq<Seq<char>>, x: Seq<char>)
    ensures
        spaced_set_spec(items.push(x)) == spaced_set_spec(items) + x + " "@,
    decreases items.len(),
{
    if items.len() == 0 {
        assert(items.push(x).drop_first() =~= Seq::<Seq<char>>::empty());
        assert(items.push(x)[0] == x);
        assert(spaced_set_spec(items.push(x)) == x + " "@ + spaced_set_spec(
            Seq::<Seq<char>>::empty(),
        ));
        assert(x + " "@ + Seq::<char>::empty() =~= x + " "@);
        assert(spaced_set_spec(items) + x + " "@ =~= x + " "@);
    } else {
        assert(items.push(x).drop_first() =~= items.drop_first().push(x));
        lemma_spaced_set_snoc(items.drop_first(), x);
        assert(items[0] + " "@ + (spaced_set_spec(items.drop_first()) + x + " "@) =~= (items[0]
            + " "@ + spaced_set_spec(items.drop_first())) + x + " "@);
    }
}

/// Wraps a set of items; rendering writes each followed by one space.
pub struct SpacedSet(pub Vec<String>);

impl SpacedSet {
    /// Every item followed by one space.
    pub fn to_string(&self) -> (r: String)
        ensures
            r@ == spaced_set_spec(self.0.deep_view()),
    {
        let ghost items = self.0.deep_view();
        let mut out = String::new();
        let mut i: usize = 0;
        while i < self.0.len()
            invariant
                items == self.0.deep_view(),
                items.len() == self.0@.len(),
                i <= self.0@.len(),
                out@ == spaced_set_spec(items.take(i as int)),
            decreases self.0@.len() - i,
        {
            proof {
                assert(items[i as int] == self.0@[i as int]@);
                assert(items.take(i as int).push(items[i as int]) =~= items.take(i + 1 as int));
                lemma_spaced_set_snoc(items.take(i as int), items[i as int]);
            }
            out.append(self.0[i].as_str());
            out.append(" ");
            i = i + 1;
        }
        proof {
            assert(items.take(self.0@.len() as int) =~= items);
        }
        out
    }
}

/// Renders each group of parts with commas inside it, and collects the
/// results into a spaced set: `spaced_comma_set([[1,2],[13,42]])` renders
/// as `1,2 13,42 `.
pub fn spaced_comma_set(iterable: Vec<CommaFmt>) -> (r: SpacedSet)
    ensures
        r.0@.len() == iterable@.len(),
        forall|i: int|
            0 <= i < iterable@.len() ==> r.0@[i]@ == join_spec(","@, iterable@[i].0.deep_view()),
{
    let mut out: Vec<String> = Vec::new();
    let mut i: usize = 0;
    while i < iterable.len()
        invariant
            i <= iterable@.len(),
            out@.len() == i,
            forall|j: int| 0 <= j < i ==> out@[j]@ == join_spec(","@, iterable@[j].0.deep_view()),
        decreases iterable@.len() - i,
    {
        let s = iterable[i].to_string();
        out.push(s);
        i = i + 1;
    }
    SpacedSet(out)
}

} // verus!
