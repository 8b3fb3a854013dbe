//! Instructions cut into words, with the variables of the environment put
//! in place of the words that name them.
use vstd::prelude::*;
use vstd::string::StrSliceExecFns;
use crate::ci::job::env_bag::EnvBag;
use crate::names::names_view;
use crate::text::{copy_strings, split_on, split_on_of};

verus! {

/// The words that a word of an instruction stands for: a word `$NAME` stands
/// for the values of the variable `NAME` when it has a value (`looked_up`);
/// any other word stands for itself.
pub open spec fn expansion(word: Seq<char>, looked_up: Option<Seq<Seq<char>>>) -> Seq<Seq<char>> {
    if word.len() > 0 && word[0] == '$' {
        match looked_up {
            Some(values) => values,
            None => seq![word],
        }
    } else {
        seq![word]
    }
}

/// The values of the variable that a word `$NAME` names, when it has some.
pub open spec fn looked_up(word: Seq<char>, variables: Map<Seq<char>, Seq<Seq<char>>>) -> Option<Seq<Seq<char>>> {
    if word.len() > 0 && word[0] == '$' && variables.contains_key(word.skip(1)) {
        Some(variables[word.skip(1)])
    } else {
        None
    }
}

/// The words that the words of an instruction stand for, in order.
pub open spec fn expanded(words: Seq<Seq<char>>, variables: Map<Seq<char>, Seq<Seq<char>>>) -> Seq<Seq<char>>
    decreases words.len(),
{
    if words.len() == 0 {
        Seq::empty()
    } else {
        expanded(words.drop_last(), variables) + expansion(words.last(), looked_up(words.last(), variables))
    }
}

/// The words that `word` stands for, given the value found for the variable
/// it names, if it names one.
pub fn expand_word(word: &str, looked_up: Option<Vec<String>>) -> (r: Vec<String>)
    ensures
        names_view(r@) == expansion(word@, match looked_up { Some(v) => Some(names_view(v@)), None => None }),
{
    let mut r: Vec<String> = Vec::new();
    if word.unicode_len() > 0 && word.get_char(0) == '$' {
        match looked_up {
            Some(values) => {
                return values;
            },
            None => {},
        }
    }
    r.push(word.to_owned());
    assert(names_view(r@) =~= seq![word@]);
    r
}

/// Hands out the instructions one by one, each cut into its words, with the
/// values of the variables in place of the words `$NAME` that name them.
pub struct InstructionInterpreter<E: EnvBag> {
    envbag: E,
    instructions: Vec<String>,
    current_index: usize,
}

impl<E: EnvBag> InstructionInterpreter<E> {
    /// The instructions.
    pub closed spec fn instructions(&self) -> Seq<Seq<char>> {
        names_view(self.instructions@)
    }

    /// How many have been handed out.
    pub closed spec fn handed_out(&self) -> nat {
        self.current_index as nat
    }

    /// The variables of the environment.
    pub closed spec fn variables(&self) -> Map<Seq<char>, Seq<Seq<char>>> {
        self.envbag.variables()
    }

    /// An interpreter of `instructions`, from the first, with the variables
    /// of `envbag`.
    pub fn arc_mutex(envbag: E, instructions: &Vec<String>) -> (r: Self)
        ensures
            r.instructions() == names_view(instructions@),
            r.handed_out() == 0,
            r.variables() == envbag.variables(),
    {
        Self { envbag, instructions: copy_strings(instructions.as_slice()), current_index: 0 }
    }

    /// The words of the next instruction, if one is left (see `expansion`):
    /// each word between its spaces, in order, replaced by what it stands for.
    pub fn next(&mut self) -> (r: Option<Vec<String>>)
        requires
            old(self).handed_out() <= old(self).instructions().len(),
        ensures
            final(self).instructions() == old(self).instructions(),
            final(self).handed_out() <= final(self).instructions().len(),
            final(self).variables() == old(self).variables(),
            old(self).handed_out() < old(self).instructions().len() ==> final(self).handed_out() == old(self).handed_out() + 1
                && r is Some && names_view(r.unwrap()@) == expanded(
                    split_on(old(self).instructions()[old(self).handed_out() as int], ' '), old(self).variables()),
            old(self).handed_out() == old(self).instructions().len() ==> r is None && final(self).handed_out() == old(self).handed_out(),
            (match r {
                Some(words) => Some(names_view(words@)),
                None => None::<Seq<Seq<char>>>,
            }) == next_words(old(self).instructions(), old(self).variables(), old(self).handed_out()),
    {
        if self.current_index < self.instructions.len() {
            self.current_index = self.current_index + 1;
            let words = split_on_of(self.instructions[self.current_index - 1].as_str(), ' ');
            let ghost wv = names_view(words@);
            let ghost vars = self.envbag.variables();
            let mut word_list: Vec<String> = Vec::new();
            let mut i: usize = 0;
            while i < words.len()
                invariant
                    i <= words.len(),
                    self.instructions@ == old(self).instructions@,
                    self.current_index == old(self).current_index + 1,
                    wv == names_view(words@),
                    self.envbag.variables() == vars,
                    names_view(word_list@) == expanded(wv.take(i as int), vars),
                decreases words.len() - i,
            {
                let word = words[i].as_str();
                let found = if word.unicode_len() > 0 && word.get_char(0) == '$' {
                    let name = word.substring_char(1, word.unicode_len());
                    proof {
                        assert(name@ =~= word@.skip(1));
                    }
                    self.envbag.read(name)
                } else {
                    None
                };
                let more = expand_word(word, found);
                proof {
                    assert(expansion(word@, match found { Some(v) => Some(names_view(v@)), None => None })
                        == expansion(word@, looked_up(word@, vars)));
                }
                let ghost start = names_view(word_list@);
                let mut k: usize = 0;
                while k < more.len()
                    invariant
                        k <= more.len(),
                        names_view(word_list@) == start + names_view(more@).take(k as int),
                    decreases more.len() - k,
                {
                    let ghost before = word_list@;
                    word_list.push(more[k].clone());
                    proof {
                        assert(names_view(word_list@) =~= names_view(before).push(more@[k as int]@));
                        assert(names_view(more@).take(k + 1) =~= names_view(more@).take(k as int).push(more@[k as int]@));
                    }
                    k = k + 1;
                }
                proof {
                    assert(names_view(more@).take(more.len() as int) =~= names_view(more@));
                    assert(wv.take(i + 1).drop_last() =~= wv.take(i as int));
                    assert(wv.take(i + 1).last() == word@);
                }
                i = i + 1;
            }
            assert(wv.take(words.len() as int) =~= wv);
            Some(word_list)
        } else {
            None
        }
    }
}

/// What `next` hands out when `handed` of the `instructions` have been
/// handed out already: the words of the next one (see `next`), if one is
/// left.
pub open spec fn next_words(
    instructions: Seq<Seq<char>>,
    variables: Map<Seq<char>, Seq<Seq<char>>>,
    handed: nat,
) -> Option<Seq<Seq<char>>> {
    if handed < instructions.len() {
        Some(expanded(split_on(instructions[handed as int], ' '), variables))
    } else {
        None
    }
}

/// What `k` calls of `next` do from an interpreter that has handed out
/// nothing: the count handed out after them, and what each call handed out,
/// in order (see `next`).
pub open spec fn calls_of_next(
    instructions: Seq<Seq<char>>,
    variables: Map<Seq<char>, Seq<Seq<char>>>,
    k: nat,
) -> (nat, Seq<Option<Seq<Seq<char>>>>)
    decreases k,
{
    if k == 0 {
        (0, Seq::empty())
    } else {
        let (handed, out) = calls_of_next(instructions, variables, (k - 1) as nat);
        (
            if handed < instructions.len() { handed + 1 } else { handed },
            out.push(next_words(instructions, variables, handed)),
        )
    }
}

/// An interpreter hands out exactly one item for each instruction, in order,
/// then nothing, however many calls follow: call `j` hands out the words of
/// instruction `j` when there is one, and `None` after the last.
pub proof fn lemma_each_instruction_once(
    instructions: Seq<Seq<char>>,
    variables: Map<Seq<char>, Seq<Seq<char>>>,
    k: nat,
)
    ensures
        calls_of_next(instructions, variables, k).0 == if k < instructions.len() { k } else { instructions.len() },
        calls_of_next(instructions, variables, k).1.len() == k,
        forall|j: int| 0 <= j < k ==> #[trigger] calls_of_next(instructions, variables, k).1[j] == if j < instructions.len() {
            Some(expanded(split_on(instructions[j], ' '), variables))
        } else {
            None::<Seq<Seq<char>>>
        },
    decreases k,
{
    if k > 0 {
        lemma_each_instruction_once(instructions, variables, (k - 1) as nat);
        let before = calls_of_next(instructions, variables, (k - 1) as nat);
        assert forall|j: int| 0 <= j < k implies #[trigger] calls_of_next(instructions, variables, k).1[j] == if j < instructions.len() {
            Some(expanded(split_on(instructions[j], ' '), variables))
        } else {
            None::<Seq<Seq<char>>>
        } by {
            if j < k - 1 {
                assert(calls_of_next(instructions, variables, k).1[j] == before.1[j]);
            }
        }
    }
}

} // verus!
