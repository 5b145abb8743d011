//! The renderer: values written back as text, tokens separated by single
//! spaces, a block as `{ ` contents ` }`.

use crate::number::{decimal, push_decimal};
use crate::value::{lemma_terms, lemma_view_block, terms, Operator, Term, Value};
use vstd::prelude::*;
use vstd::string::StringExecFns;

verus! {

/// The text that names an operator.
pub open spec fn symbol_text(op: Operator) -> Seq<char> {
    match op {
        Operator::Add => seq!['+'],
        Operator::Sub => seq!['-'],
        Operator::Mul => seq!['*'],
        Operator::Div => seq!['/'],
        Operator::If => seq!['i', 'f'],
    }
}

/// The text of a term: a number in decimal, an operator by its symbol, a
/// block as `{ `, the text of its contents, ` }`.
pub open spec fn render_term(t: Term) -> Seq<char>
    decreases t,
{
    match t {
        Term::Number(n) => decimal(n as int),
        Term::Operator(op) => symbol_text(op),
        Term::Block(items) => seq!['{', ' '] + render(items) + seq![' ', '}'],
    }
}

/// The text of a sequence of terms: the texts of the terms, one space
/// between each two.
pub open spec fn render(ts: Seq<Term>) -> Seq<char>
    decreases ts,
{
    if ts.len() == 0 {
        Seq::empty()
    } else if ts.len() == 1 {
        render_term(ts[0])
    } else {
        render(ts.drop_last()) + seq![' '] + render_term(ts.last())
    }
}

impl Operator {
    /// The text that names the operator.
    pub fn symbol(self) -> (text: &'static str)
        ensures
            text@ == symbol_text(self),
    {
        proof {
            reveal_strlit("+");
            reveal_strlit("-");
            reveal_strlit("*");
            reveal_strlit("/");
            reveal_strlit("if");
            assert("+"@ =~= seq!['+']);
            assert("-"@ =~= seq!['-']);
            assert("*"@ =~= seq!['*']);
            assert("/"@ =~= seq!['/']);
            assert("if"@ =~= seq!['i', 'f']);
        }
        match self {
            Operator::Add => "+",
            Operator::Sub => "-",
            Operator::Mul => "*",
            Operator::Div => "/",
            Operator::If => "if",
        }
    }
}

/// Appends the text of a value to `out`.
pub fn write_value(value: &Value, out: &mut String)
    ensures
        final(out)@ == old(out)@ + render_term(value@),
    decreases value,
{
    match value {
        Value::Number(n) => {
            push_decimal(*n, out);
        },
        Value::Operator(op) => {
            out.append(op.symbol());
        },
        Value::Block(items) => {
            proof {
                reveal_strlit("{ ");
                reveal_strlit(" }");
                reveal_strlit(" ");
                assert("{ "@ =~= seq!['{', ' ']);
                assert(" }"@ =~= seq![' ', '}']);
                assert(" "@ =~= seq![' ']);
                lemma_view_block(*items);
                lemma_terms(items@);
            }
            out.append("{ ");
            let ghost opened = out@;
            let ghost ts = terms(items@);
            let mut i: usize = 0;
            assert(ts.take(0) =~= Seq::<Term>::empty());
            assert(out@ =~= opened + render(ts.take(0)));
            while i < items.len()
                invariant
                    *value == Value::Block(*items),
                    i <= items.len(),
                    ts == terms(items@),
                    ts.len() == items@.len(),
                    forall|j: int| 0 <= j < items@.len() ==> #[trigger] ts[j] == items@[j]@,
                    " "@ == seq![' '],
                    out@ == opened + render(ts.take(i as int)),
                decreases items.len() - i,
            {
                if i > 0 {
                    out.append(" ");
                }
                proof {
                    vstd::std_specs::vec::axiom_vec_index_decreases(*items, i as int);
                    assert(decreases_to!(*value => value->Block_0));
                    lemma_render_take(ts, i as int);
                }
                write_value(&items[i], out);
                i += 1;
                assert(out@ =~= opened + render(ts.take(i as int)));
            }
            assert(ts.take(i as int) =~= ts);
            out.append(" }");
            assert(out@ =~= old(out)@ + render_term(value@));
        },
    }
}

/// The text of the first `k + 1` terms is the text of the first `k`, a
/// space if there are any, and the text of the next term.
pub proof fn lemma_render_take(ts: Seq<Term>, k: int)
    requires
        0 <= k < ts.len(),
    ensures
        render(ts.take(k + 1)) == if k == 0 {
            render_term(ts[k])
        } else {
            render(ts.take(k)) + seq![' '] + render_term(ts[k])
        },
{
    let longer = ts.take(k + 1);
    assert(longer.last() == ts[k]);
    assert(longer.drop_last() =~= ts.take(k));
    if k == 0 {
        assert(render(longer) == render_term(longer[0]));
    } else {
        assert(render(longer) == render(longer.drop_last()) + seq![' '] + render_term(
            longer.last(),
        ));
    }
}

impl Value {
    /// The text of the value.
    pub fn display(&self) -> (text: String)
        ensures
            text@ == render_term(self@),
    {
        let mut text = String::new();
        write_value(self, &mut text);
        assert(text@ =~= render_term(self@));
        text
    }
}

/// The text of a stack, bottom first: the texts of its values, one space
/// between each two.
pub fn display(stack: &[Value]) -> (text: String)
    ensures
        text@ == render(terms(stack@)),
{
    let mut text = String::new();
    let ghost ts = terms(stack@);
    proof {
        reveal_strlit(" ");
        assert(" "@ =~= seq![' ']);
        lemma_terms(stack@);
        assert(ts.take(0) =~= Seq::<Term>::empty());
    }
    let mut i: usize = 0;
    while i < stack.len()
        invariant
            i <= stack.len(),
            ts == terms(stack@),
            ts.len() == stack@.len(),
            forall|j: int| 0 <= j < stack@.len() ==> #[trigger] ts[j] == stack@[j]@,
            " "@ == seq![' '],
            text@ == render(ts.take(i as int)),
        decreases stack.len() - i,
    {
        if i > 0 {
            text.append(" ");
        }
        proof {
            lemma_render_take(ts, i as int);
        }
        write_value(&stack[i], &mut text);
        i += 1;
        assert(text@ =~= render(ts.take(i as int)));
    }
    assert(ts.take(i as int) =~= ts);
    text
}

} // verus!
