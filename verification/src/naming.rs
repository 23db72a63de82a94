//! The name of the file that receives the measurement of one run: the
//! run's parameter names and values, ordered alphabetically by name.

use vstd::prelude::*;
use vstd::string::*;
use vstd::multiset::Multiset;
use crate::config::{
    lemma_runs_assign_every_parameter, measurement_series, ChoiceModel, Operation,
    ParameterChoice, ParameterModel,
};

verus! {

broadcast use vstd::seq_lib::group_to_multiset_ensures;

// ---------------------------------------------------------------------
// Alphabetical order of texts.
// ---------------------------------------------------------------------

/// `a` comes before `b` in the lexicographic order of their characters
/// (which is the byte order of their UTF-8 encodings).
pub open spec fn text_less(a: Seq<char>, b: Seq<char>) -> bool
    decreases a.len(),
{
    if a.len() == 0 {
        b.len() > 0
    } else if b.len() == 0 {
        false
    } else if a[0] != b[0] {
        (a[0] as int) < (b[0] as int)
    } else {
        text_less(a.drop_first(), b.drop_first())
    }
}

/// No text comes before itself.
pub proof fn lemma_text_less_irreflexive(a: Seq<char>)
    ensures
        !text_less(a, a),
    decreases a.len(),
{
    if a.len() > 0 {
        lemma_text_less_irreflexive(a.drop_first());
    }
}

/// Of two texts, at most one comes before the other.
pub proof fn lemma_text_less_asymmetric(a: Seq<char>, b: Seq<char>)
    ensures
        !(text_less(a, b) && text_less(b, a)),
    decreases a.len(),
{
    if a.len() > 0 && b.len() > 0 && a[0] == b[0] {
        lemma_text_less_asymmetric(a.drop_first(), b.drop_first());
    }
}

/// The order is transitive.
pub proof fn lemma_text_less_transitive(a: Seq<char>, b: Seq<char>, c: Seq<char>)
    requires
        text_less(a, b),
        text_less(b, c),
    ensures
        text_less(a, c),
    decreases a.len(),
{
    if a.len() > 0 && b.len() > 0 && c.len() > 0 && a[0] == b[0] && b[0] == c[0] {
        lemma_text_less_transitive(a.drop_first(), b.drop_first(), c.drop_first());
    }
}

/// Of two different texts, one comes before the other.
pub proof fn lemma_text_less_total(a: Seq<char>, b: Seq<char>)
    requires
        a != b,
    ensures
        text_less(a, b) || text_less(b, a),
    decreases a.len(),
{
    if a.len() > 0 && b.len() > 0 && a[0] == b[0] {
        if a.drop_first() == b.drop_first() {
            assert(a =~= seq![a[0]] + a.drop_first());
            assert(b =~= seq![b[0]] + b.drop_first());
        }
        lemma_text_less_total(a.drop_first(), b.drop_first());
    } else if a.len() > 0 && b.len() > 0 {
        assert((a[0] as int) != (b[0] as int));
    } else if a.len() == 0 && b.len() == 0 {
        assert(a =~= b);
    }
}

/// Whether the text `a` comes alphabetically before the text `b`.
pub fn text_precedes(a: &str, b: &str) -> (res: bool)
    ensures
        res == text_less(a@, b@),
{
    let la = a.unicode_len();
    let lb = b.unicode_len();
    let mut i: usize = 0;
    assert(a@.skip(0) =~= a@);
    assert(b@.skip(0) =~= b@);
    while i < la && i < lb
        invariant
            la == a@.len(),
            lb == b@.len(),
            i <= la,
            i <= lb,
            text_less(a@, b@) == text_less(a@.skip(i as int), b@.skip(i as int)),
        decreases la - i,
    {
        let ca = a.get_char(i);
        let cb = b.get_char(i);
        if ca != cb {
            return (ca as u32) < (cb as u32);
        }
        assert(a@.skip(i as int).drop_first() =~= a@.skip(i + 1));
        assert(b@.skip(i as int).drop_first() =~= b@.skip(i + 1));
        i = i + 1;
    }
    i < lb
}

// ---------------------------------------------------------------------
// Runs ordered by parameter name.
// ---------------------------------------------------------------------

/// The choices are ordered by parameter name; choices with equal names
/// may stand in any order.
pub open spec fn sorted_by_name(s: Seq<ChoiceModel>) -> bool {
    forall|i: int, j: int| 0 <= i < j < s.len() ==> !text_less(#[trigger] s[j].0, #[trigger] s[i].0)
}

/// No parameter name occurs twice.
pub open spec fn names_distinct(s: Seq<ChoiceModel>) -> bool {
    forall|i: int, j: int| 0 <= i < j < s.len() ==> #[trigger] s[i].0 != #[trigger] s[j].0
}

proof fn lemma_deep_view_insert(before: Seq<ParameterChoice>, after: Seq<ParameterChoice>, pos: int, x: ParameterChoice)
    requires
        0 <= pos <= before.len(),
        after == before.insert(pos, x),
    ensures
        Seq::new(after.len(), |i: int| after[i].deep_view()) == Seq::new(
            before.len(),
            |i: int| before[i].deep_view(),
        ).insert(pos, x.deep_view()),
{
    assert(Seq::new(after.len(), |i: int| after[i].deep_view()) =~= Seq::new(
        before.len(),
        |i: int| before[i].deep_view(),
    ).insert(pos, x.deep_view()));
}

fn copy_choice(c: &ParameterChoice) -> (res: ParameterChoice)
    ensures
        res.deep_view() == c.deep_view(),
{
    ParameterChoice { name: c.name.clone(), index: c.index, value: c.value.clone() }
}

/// The choices of `s` that set the parameter `name`, in their order in `s`.
pub open spec fn choices_named(s: Seq<ChoiceModel>, name: Seq<char>) -> Seq<ChoiceModel> {
    s.filter(|c: ChoiceModel| c.0 == name)
}

proof fn lemma_choices_named_push(s: Seq<ChoiceModel>, x: ChoiceModel, name: Seq<char>)
    ensures
        choices_named(s.push(x), name) == (if x.0 == name {
            choices_named(s, name).push(x)
        } else {
            choices_named(s, name)
        }),
{
    reveal(Seq::filter);
    assert(s.push(x).drop_last() =~= s);
}

proof fn lemma_choices_named_none(s: Seq<ChoiceModel>, name: Seq<char>)
    requires
        forall|k: int| 0 <= k < s.len() ==> #[trigger] s[k].0 != name,
    ensures
        choices_named(s, name) == Seq::<ChoiceModel>::empty(),
    decreases s.len(),
{
    reveal(Seq::filter);
    if s.len() > 0 {
        lemma_choices_named_none(s.drop_last(), name);
    }
}

proof fn lemma_choices_named_add(a: Seq<ChoiceModel>, b: Seq<ChoiceModel>, name: Seq<char>)
    ensures
        choices_named(a + b, name) == choices_named(a, name) + choices_named(b, name),
{
    Seq::filter_distributes_over_add(a, b, |c: ChoiceModel| c.0 == name);
}

/// The choices of a run ordered by parameter name; choices with equal
/// names keep their order (`choices_named`).
pub fn sort_by_name(choices: &Vec<ParameterChoice>) -> (res: Vec<ParameterChoice>)
    ensures
        res.deep_view().to_multiset() == choices.deep_view().to_multiset(),
        sorted_by_name(res.deep_view()),
        forall|name: Seq<char>|
            #[trigger] choices_named(res.deep_view(), name) == choices_named(
                choices.deep_view(),
                name,
            ),
{
    let ghost input = choices.deep_view();
    let mut sorted: Vec<ParameterChoice> = Vec::new();
    for i in 0..choices.len()
        invariant
            input == choices.deep_view(),
            sorted.deep_view().to_multiset() == input.take(i as int).to_multiset(),
            sorted_by_name(sorted.deep_view()),
            forall|name: Seq<char>|
                #[trigger] choices_named(sorted.deep_view(), name) == choices_named(
                    input.take(i as int),
                    name,
                ),
    {
        let item = copy_choice(&choices[i]);
        let mut pos: usize = 0;
        while pos < sorted.len() && !text_precedes(item.name.as_str(), sorted[pos].name.as_str())
            invariant
                0 <= pos <= sorted.len(),
                forall|k: int| 0 <= k < pos ==> !text_less(item.name@, #[trigger] sorted.deep_view()[k].0),
            decreases sorted.len() - pos,
        {
            pos = pos + 1;
        }
        let ghost before = sorted@;
        let ghost old_view = sorted.deep_view();
        let ghost x = item;
        sorted.insert(pos, item);
        proof {
            lemma_deep_view_insert(before, sorted@, pos as int, x);
            let new_view = sorted.deep_view();
            assert(new_view == old_view.insert(pos as int, x.deep_view()));
            assert(input.take(i + 1) =~= input.take(i as int).push(input[i as int]));
            assert(input[i as int] == x.deep_view());
            assert forall|a: int, b: int| 0 <= a < b < new_view.len() implies !text_less(
                #[trigger] new_view[b].0,
                #[trigger] new_view[a].0,
            ) by {
                if b < pos {
                } else if b == pos {
                    assert(new_view[a] == old_view[a]);
                } else if a == pos {
                    // x precedes old_view[pos], which does not come after old_view[b - 1]
                    assert(new_view[b] == old_view[b - 1]);
                    assert(text_less(x.deep_view().0, old_view[pos as int].0));
                    if text_less(new_view[b].0, x.deep_view().0) {
                        if b - 1 > pos {
                            assert(!text_less(old_view[b - 1].0, old_view[pos as int].0));
                        }
                        lemma_text_less_transitive(
                            new_view[b].0,
                            x.deep_view().0,
                            old_view[pos as int].0,
                        );
                        if b - 1 == pos {
                            lemma_text_less_irreflexive(old_view[pos as int].0);
                        }
                    }
                } else if a < pos {
                    assert(new_view[a] == old_view[a]);
                    assert(new_view[b] == old_view[b - 1]);
                } else {
                    assert(new_view[a] == old_view[a - 1]);
                    assert(new_view[b] == old_view[b - 1]);
                }
            }
            // every choice behind the insertion point has a name after x's
            let xv = x.deep_view();
            let front = old_view.take(pos as int);
            let back = old_view.skip(pos as int);
            assert forall|k: int| 0 <= k < back.len() implies text_less(xv.0, #[trigger] back[k].0) by {
                assert(back[k] == old_view[pos + k]);
                assert(text_less(xv.0, old_view[pos as int].0));
                if k > 0 && back[k].0 != old_view[pos as int].0 {
                    assert(!text_less(old_view[pos + k].0, old_view[pos as int].0));
                    lemma_text_less_total(back[k].0, old_view[pos as int].0);
                    lemma_text_less_transitive(xv.0, old_view[pos as int].0, back[k].0);
                }
            }
            assert(old_view =~= front + back);
            assert(new_view =~= front.push(xv) + back);
            assert forall|name: Seq<char>|
                #[trigger] choices_named(new_view, name) == choices_named(input.take(i + 1), name) by {
                lemma_choices_named_add(front, back, name);
                lemma_choices_named_add(front.push(xv), back, name);
                lemma_choices_named_push(front, xv, name);
                lemma_choices_named_push(input.take(i as int), xv, name);
                assert(choices_named(old_view, name) == choices_named(input.take(i as int), name));
                if xv.0 == name {
                    assert forall|k: int| 0 <= k < back.len() implies #[trigger] back[k].0 != name by {
                        assert(text_less(xv.0, back[k].0));
                        lemma_text_less_irreflexive(xv.0);
                    }
                    lemma_choices_named_none(back, name);
                    assert(choices_named(front, name) + Seq::<ChoiceModel>::empty() =~= choices_named(front, name));
                    assert(choices_named(front.push(xv), name) + Seq::<ChoiceModel>::empty() =~= choices_named(front.push(xv), name));
                }
            }
        }
    }
    assert(input.take(choices.len() as int) =~= input);
    sorted
}

// ---------------------------------------------------------------------
// The measurement file name.
// ---------------------------------------------------------------------

/// `name_value`: the label of one choice in a file name.
pub open spec fn choice_label(c: ChoiceModel) -> Seq<char> {
    c.0 + seq!['_'] + c.2
}

/// The labels of the choices, separated by `_`.
pub open spec fn joined_labels(s: Seq<ChoiceModel>) -> Seq<char>
    decreases s.len(),
{
    if s.len() == 0 {
        Seq::empty()
    } else if s.len() == 1 {
        choice_label(s[0])
    } else {
        joined_labels(s.drop_last()) + seq!['_'] + choice_label(s.last())
    }
}

/// The file name for a run whose choices stand in the order `s`.
pub open spec fn file_name_text(s: Seq<ChoiceModel>) -> Seq<char> {
    joined_labels(s) + seq!['.', 'c', 's', 'v']
}

/// `name` is the measurement file name of the run `choices`: the labels of
/// its choices in alphabetical order of the parameter names, followed by
/// `.csv`.
pub open spec fn is_measurement_file_name(choices: Seq<ChoiceModel>, name: Seq<char>) -> bool {
    exists|s: Seq<ChoiceModel>|
        s.to_multiset() == choices.to_multiset() && sorted_by_name(s) && name == file_name_text(s)
}


/// Within `m`, a parameter name determines the choice.
pub open spec fn names_identify(m: Multiset<ChoiceModel>) -> bool {
    forall|x: ChoiceModel, y: ChoiceModel|
        #![trigger m.count(x), m.count(y)]
        m.count(x) > 0 && m.count(y) > 0 && x.0 == y.0 ==> x == y
}

proof fn lemma_distinct_names_identify(s: Seq<ChoiceModel>)
    requires
        names_distinct(s),
    ensures
        names_identify(s.to_multiset()),
{
    assert forall|x: ChoiceModel, y: ChoiceModel|
        s.to_multiset().count(x) > 0 && s.to_multiset().count(y) > 0 && x.0 == y.0 implies x
        == y by {
        assert(s.contains(x));
        assert(s.contains(y));
        let i = choose|i: int| 0 <= i < s.len() && s[i] == x;
        let j = choose|j: int| 0 <= j < s.len() && s[j] == y;
        if i < j {
            assert(s[i].0 != s[j].0);
        } else if j < i {
            assert(s[j].0 != s[i].0);
        }
    }
}

/// Two orderings by name of the same choices are equal when a name
/// determines its choice.
proof fn lemma_sorted_unique(a: Seq<ChoiceModel>, b: Seq<ChoiceModel>)
    requires
        a.to_multiset() == b.to_multiset(),
        sorted_by_name(a),
        sorted_by_name(b),
        names_identify(a.to_multiset()),
    ensures
        a == b,
    decreases a.len(),
{
    assert(a.len() == a.to_multiset().len());
    assert(b.len() == b.to_multiset().len());
    if a.len() == 0 {
        assert(a =~= b);
    } else {
        assert(a.to_multiset().count(a[0]) > 0);
        assert(b.to_multiset().count(b[0]) > 0);
        assert(b.contains(a[0]));
        assert(a.contains(b[0]));
        let q = choose|q: int| 0 <= q < b.len() && b[q] == a[0];
        let p = choose|p: int| 0 <= p < a.len() && a[p] == b[0];
        if p > 0 {
            assert(!text_less(a[p].0, a[0].0));
        }
        if q > 0 {
            assert(!text_less(b[q].0, b[0].0));
        }
        if a[0].0 != b[0].0 {
            lemma_text_less_total(a[0].0, b[0].0);
        }
        assert(a[0] == b[0]);
        vstd::seq_lib::to_multiset_remove(a, 0);
        vstd::seq_lib::to_multiset_remove(b, 0);
        assert(a.remove(0) =~= a.drop_first());
        assert(b.remove(0) =~= b.drop_first());
        let m = a.drop_first().to_multiset();
        assert forall|x: ChoiceModel, y: ChoiceModel|
            m.count(x) > 0 && m.count(y) > 0 && x.0 == y.0 implies x == y by {
            assert(a.to_multiset().count(x) > 0);
            assert(a.to_multiset().count(y) > 0);
        }
        assert forall|i: int, j: int| 0 <= i < j < a.drop_first().len() implies !text_less(
            #[trigger] a.drop_first()[j].0,
            #[trigger] a.drop_first()[i].0,
        ) by {
            assert(a.drop_first()[j] == a[j + 1]);
            assert(a.drop_first()[i] == a[i + 1]);
        }
        assert forall|i: int, j: int| 0 <= i < j < b.drop_first().len() implies !text_less(
            #[trigger] b.drop_first()[j].0,
            #[trigger] b.drop_first()[i].0,
        ) by {
            assert(b.drop_first()[j] == b[j + 1]);
            assert(b.drop_first()[i] == b[i + 1]);
        }
        lemma_sorted_unique(a.drop_first(), b.drop_first());
        assert forall|i: int| 0 <= i < a.len() implies a[i] == b[i] by {
            if i > 0 {
                assert(a[i] == a.drop_first()[i - 1]);
                assert(b[i] == b.drop_first()[i - 1]);
            }
        }
        assert(a =~= b);
    }
}

/// The measurement file name of a run does not depend on the order in
/// which the run lists its choices: two runs with the same choices, whose
/// parameter names are distinct, get the same file name.
pub proof fn lemma_file_name_ignores_order(
    c1: Seq<ChoiceModel>,
    c2: Seq<ChoiceModel>,
    n1: Seq<char>,
    n2: Seq<char>,
)
    requires
        c1.to_multiset() == c2.to_multiset(),
        names_distinct(c1),
        is_measurement_file_name(c1, n1),
        is_measurement_file_name(c2, n2),
    ensures
        n1 == n2,
{
    let s1 = choose|s: Seq<ChoiceModel>|
        s.to_multiset() == c1.to_multiset() && sorted_by_name(s) && n1 == file_name_text(s);
    let s2 = choose|s: Seq<ChoiceModel>|
        s.to_multiset() == c2.to_multiset() && sorted_by_name(s) && n2 == file_name_text(s);
    lemma_distinct_names_identify(c1);
    lemma_sorted_unique(s1, s2);
}

/// When the parameters of a series have distinct names, so do the choices
/// of each of its runs; the file name of a run then does not depend on
/// the order of its choices (`lemma_file_name_ignores_order`).
pub proof fn lemma_series_runs_have_distinct_names(
    operation: Operation,
    params: Seq<ParameterModel>,
    k: int,
)
    requires
        0 <= k < measurement_series(operation, params).len(),
        forall|i: int, j: int| 0 <= i < j < params.len() ==> #[trigger] params[i].0 != #[trigger] params[j].0,
    ensures
        names_distinct(measurement_series(operation, params)[k]),
{
    lemma_runs_assign_every_parameter(operation, params, k);
    let run = measurement_series(operation, params)[k];
    assert forall|i: int, j: int| 0 <= i < j < run.len() implies #[trigger] run[i].0
        != #[trigger] run[j].0 by {
        assert(run[i].0 == params[i].0);
        assert(run[j].0 == params[j].0);
    }
}

/// `part` stands in `text` at position `off`.
pub open spec fn occurs_at(text: Seq<char>, part: Seq<char>, off: int) -> bool {
    &&& 0 <= off
    &&& off + part.len() <= text.len()
    &&& text.subrange(off, off + part.len()) == part
}

/// The label `label` stands in the file name `name` at position `off`
/// as a whole label: followed by the separator `_` or by the closing
/// `.csv`.
pub open spec fn whole_label_at(name: Seq<char>, label: Seq<char>, off: int) -> bool {
    &&& occurs_at(name, label, off)
    &&& (off + label.len() + 4 == name.len() || (off + label.len() < name.len() && name[off
        + label.len()] == '_'))
}

/// The file name `name` holds the whole label `name_value` of the
/// choice `c`.
pub open spec fn holds_whole_label(name: Seq<char>, c: ChoiceModel) -> bool {
    exists|off: int| whole_label_at(name, c.0 + seq!['_'] + c.2, off)
}

/// The number of characters of the labels of `s` and of the separators
/// between them.
pub open spec fn labels_length(s: Seq<ChoiceModel>) -> nat
    decreases s.len(),
{
    if s.len() == 0 {
        0
    } else if s.len() == 1 {
        s[0].0.len() + 1 + s[0].2.len()
    } else {
        labels_length(s.drop_last()) + 1 + s.last().0.len() + 1 + s.last().2.len()
    }
}

/// Adding a choice to a run of at least one choice adds its label after a
/// separator.
pub proof fn lemma_joined_labels_push(s: Seq<ChoiceModel>, c: ChoiceModel)
    requires
        s.len() > 0,
    ensures
        joined_labels(s.push(c)) == joined_labels(s) + seq!['_'] + c.0 + seq!['_'] + c.2,
{
    assert(s.push(c).drop_last() =~= s);
    assert(joined_labels(s) + seq!['_'] + choice_label(c) =~= joined_labels(s) + seq!['_'] + c.0
        + seq!['_'] + c.2);
}

/// The joined labels are exactly as long as all labels and the
/// separators between them.
pub proof fn lemma_joined_labels_length(s: Seq<ChoiceModel>)
    ensures
        joined_labels(s).len() == labels_length(s),
    decreases s.len(),
{
    if s.len() > 1 {
        lemma_joined_labels_length(s.drop_last());
    }
}

/// The label of every choice stands whole in the joined labels.
pub proof fn lemma_joined_labels_hold_every_label(s: Seq<ChoiceModel>, i: int)
    requires
        0 <= i < s.len(),
    ensures
        exists|off: int|
            occurs_at(joined_labels(s), s[i].0 + seq!['_'] + s[i].2, off) && (off + (s[i].0
                + seq!['_'] + s[i].2).len() == joined_labels(s).len() || joined_labels(s)[off
                + (s[i].0 + seq!['_'] + s[i].2).len()] == '_'),
    decreases s.len(),
{
    let label = s[i].0 + seq!['_'] + s[i].2;
    let text = joined_labels(s);
    if s.len() == 1 {
        assert(text == label);
        assert(text.subrange(0, label.len() as int) =~= label);
        assert(occurs_at(text, label, 0));
    } else {
        let front = joined_labels(s.drop_last());
        assert(text == front + seq!['_'] + choice_label(s.last()));
        if i == s.len() - 1 {
            let off: int = front.len() as int + 1;
            assert(text.subrange(off, off + label.len()) =~= label);
            assert(occurs_at(text, label, off));
        } else {
            assert(s.drop_last()[i] == s[i]);
            lemma_joined_labels_hold_every_label(s.drop_last(), i);
            let off = choose|off: int|
                occurs_at(front, label, off) && (off + label.len() == front.len() || front[off
                    + label.len()] == '_');
            assert(text.subrange(off, off + label.len()) =~= front.subrange(off, off + label.len()));
            assert(occurs_at(text, label, off));
            if off + label.len() == front.len() {
                assert(text[off + label.len()] == '_');
            } else {
                assert(text[off + label.len()] == front[off + label.len()]);
            }
        }
    }
}

spec fn label_weight(c: ChoiceModel) -> nat {
    c.0.len() + 1 + c.2.len() + 1
}

spec fn label_weights(s: Seq<ChoiceModel>) -> nat
    decreases s.len(),
{
    if s.len() == 0 {
        0
    } else {
        label_weights(s.drop_last()) + label_weight(s.last())
    }
}

proof fn lemma_labels_length_weights(s: Seq<ChoiceModel>)
    ensures
        s.len() == 0 ==> labels_length(s) == 0,
        s.len() > 0 ==> labels_length(s) + 1 == label_weights(s),
    decreases s.len(),
{
    if s.len() > 1 {
        lemma_labels_length_weights(s.drop_last());
    } else if s.len() == 1 {
        assert(s.drop_last().len() == 0);
        assert(label_weights(s.drop_last()) == 0);
        assert(s.last() == s[0]);
    }
}

proof fn lemma_label_weights_remove(t: Seq<ChoiceModel>, p: int)
    requires
        0 <= p < t.len(),
    ensures
        label_weights(t) == label_weights(t.remove(p)) + label_weight(t[p]),
    decreases t.len(),
{
    if p == t.len() - 1 {
        assert(t.remove(p) =~= t.drop_last());
    } else {
        lemma_label_weights_remove(t.drop_last(), p);
        assert(t.remove(p).drop_last() =~= t.drop_last().remove(p));
        assert(t.remove(p).last() == t.last());
    }
}

proof fn lemma_label_weights_permutation(s: Seq<ChoiceModel>, t: Seq<ChoiceModel>)
    requires
        s.to_multiset() == t.to_multiset(),
    ensures
        label_weights(s) == label_weights(t),
    decreases s.len(),
{
    assert(s.len() == s.to_multiset().len());
    assert(t.len() == t.to_multiset().len());
    if s.len() > 0 {
        let x = s.last();
        assert(s.to_multiset().count(x) > 0);
        assert(t.contains(x));
        let p = choose|p: int| 0 <= p < t.len() && t[p] == x;
        vstd::seq_lib::to_multiset_remove(t, p);
        vstd::seq_lib::to_multiset_remove(s, s.len() - 1);
        assert(s.remove(s.len() - 1) =~= s.drop_last());
        lemma_label_weights_permutation(s.drop_last(), t.remove(p));
        lemma_label_weights_remove(t, p);
    }
}

/// Runs with the same choices have labels of the same total length.
proof fn lemma_labels_length_permutation(s: Seq<ChoiceModel>, t: Seq<ChoiceModel>)
    requires
        s.to_multiset() == t.to_multiset(),
    ensures
        labels_length(s) == labels_length(t),
{
    assert(s.len() == s.to_multiset().len());
    assert(t.len() == t.to_multiset().len());
    lemma_labels_length_weights(s);
    lemma_labels_length_weights(t);
    lemma_label_weights_permutation(s, t);
}

fn append_label(text: &mut String, c: &ParameterChoice)
    ensures
        final(text)@ == old(text)@ + choice_label(c.deep_view()),
{
    let sep = "_";
    proof {
        reveal_strlit("_");
    }
    text.append(c.name.as_str());
    text.append(sep);
    text.append(c.value.as_str());
}

/// The name of the file that receives the measurement of the run
/// `choices`.
pub fn measurement_file_name(choices: &Vec<ParameterChoice>) -> (res: String)
    ensures
        is_measurement_file_name(choices.deep_view(), res@),
        // the name ends in `.csv`
        res@.len() >= 4,
        res@.subrange(res@.len() - 4, res@.len() as int) == seq!['.', 'c', 's', 'v'],
        // and holds the whole label `name_value` of every choice of the run
        forall|k: int|
            0 <= k < choices.len() ==> holds_whole_label(res@, #[trigger] choices.deep_view()[k]),
        // and nothing else but the separators between the labels
        res@.len() == labels_length(choices.deep_view()) + 4,
{
    let sorted = sort_by_name(choices);
    let ghost s = sorted.deep_view();
    let mut name = String::new();
    for i in 0..sorted.len()
        invariant
            s == sorted.deep_view(),
            name@ == joined_labels(s.take(i as int)),
    {
        if i > 0 {
            let sep = "_";
            proof {
                reveal_strlit("_");
            }
            name.append(sep);
        }
        append_label(&mut name, &sorted[i]);
        proof {
            assert(s.take(i + 1).drop_last() =~= s.take(i as int));
            assert(s.take(i + 1).last() == s[i as int]);
            if i == 0 {
                assert(s.take(0) =~= Seq::<ChoiceModel>::empty());
            }
        }
    }
    assert(s.take(sorted.len() as int) =~= s);
    let ext = ".csv";
    proof {
        reveal_strlit(".csv");
    }
    name.append(ext);
    assert(name@ =~= file_name_text(s));
    proof {
        let text = joined_labels(s);
        let cv = choices.deep_view();
        assert(name@.subrange(name@.len() - 4, name@.len() as int) =~= seq!['.', 'c', 's', 'v']);
        assert forall|k: int| 0 <= k < choices.len() implies holds_whole_label(name@, #[trigger] cv[k]) by {
            let c = cv[k];
            assert(cv.to_multiset().count(c) > 0);
            assert(s.to_multiset().count(c) > 0);
            assert(s.contains(c));
            let i = choose|i: int| 0 <= i < s.len() && s[i] == c;
            lemma_joined_labels_hold_every_label(s, i);
            let label = c.0 + seq!['_'] + c.2;
            let off = choose|off: int|
                occurs_at(text, label, off) && (off + label.len() == text.len() || text[off
                    + label.len()] == '_');
            assert(name@.subrange(off, off + label.len()) =~= text.subrange(off, off + label.len()));
            if off + label.len() < text.len() {
                assert(name@[off + label.len()] == text[off + label.len()]);
            }
            assert(whole_label_at(name@, label, off));
        }
        lemma_joined_labels_length(s);
        lemma_labels_length_permutation(s, cv);
    }
    name
}

} // verus!
