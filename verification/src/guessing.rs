//! The number guessing game: a player thinks of a number, and a strategy
//! finds it by asking questions about it.
use vstd::prelude::*;

verus! {

/// A question put to the player.
#[derive(Clone, Copy, PartialEq, Eq, Structural, Debug)]
pub enum Question {
    /// Is the number this one?
    IfEqual(u32),
    /// How does the number compare with this one?
    Compare(u32),
}

/// The player who knows the secret number. It answers questions about the
/// number and counts how many it was asked (the count stops at `u64::MAX`);
/// the questions themselves are kept as a record for the proofs.
pub struct Player {
    the_number: u32,
    steps: u64,
    asked: Ghost<Seq<Question>>,
}

/// The questions `Part1` asks: whether the number is `min`, then `min + 1`,
/// and so on up to `secret`.
pub open spec fn linear_questions(min: u32, secret: u32) -> Seq<Question> {
    Seq::new((secret - min + 1) as nat, |k: int| Question::IfEqual((min + k) as u32))
}

/// The questions binary search over `[min, max]` asks to find `secret`: it
/// compares with the middle `min + (max - min) / 2` and goes on in the half
/// that holds the number.
pub open spec fn binary_questions(min: int, max: int, secret: int) -> Seq<Question>
    decreases max - min,
{
    if !(min <= secret <= max) {
        Seq::empty()
    } else {
        let mid = min + (max - min) / 2;
        if secret == mid {
            seq![Question::Compare(mid as u32)]
        } else if secret < mid {
            seq![Question::Compare(mid as u32)] + binary_questions(min, mid - 1, secret)
        } else {
            seq![Question::Compare(mid as u32)] + binary_questions(mid + 1, max, secret)
        }
    }
}

/// Law: binary search only asks about numbers in the range it searches, and
/// asks at most `log_steps` of the range's width questions.
pub proof fn lemma_binary_questions_bounds(min: int, max: int, secret: int)
    requires
        0 <= min <= secret <= max <= u32::MAX,
    ensures
        forall|k: int|
            0 <= k < binary_questions(min, max, secret).len() ==> {
                let q = #[trigger] binary_questions(min, max, secret)[k];
                q is Compare && min <= q->Compare_0 <= max
            },
        binary_questions(min, max, secret).len() <= log_steps((max - min + 1) as nat),
    decreases max - min,
{
    let mid = min + (max - min) / 2;
    let qs = binary_questions(min, max, secret);
    let w = (max - min + 1) as nat;
    if secret < mid {
        lemma_binary_questions_bounds(min, mid - 1, secret);
        lemma_log_steps_mono((mid - 1 - min + 1) as nat, w / 2);
        let rest = binary_questions(min, mid - 1, secret);
        assert forall|k: int| 0 <= k < qs.len() implies {
            let q = #[trigger] qs[k];
            q is Compare && min <= q->Compare_0 <= max
        } by {
            if k > 0 {
                assert(qs[k] == rest[k - 1]);
            }
        }
    } else if secret > mid {
        lemma_binary_questions_bounds(mid + 1, max, secret);
        lemma_log_steps_mono((max - (mid + 1) + 1) as nat, w / 2);
        let rest = binary_questions(mid + 1, max, secret);
        assert forall|k: int| 0 <= k < qs.len() implies {
            let q = #[trigger] qs[k];
            q is Compare && min <= q->Compare_0 <= max
        } by {
            if k > 0 {
                assert(qs[k] == rest[k - 1]);
            }
        }
    }
}

/// Adds one to a question count, stopping at `u64::MAX`.
pub open spec fn count_up(steps: nat, k: nat) -> nat {
    if steps + k > u64::MAX {
        u64::MAX as nat
    } else {
        steps + k
    }
}

/// The number of questions binary search may need over a range of `width`
/// numbers: the number of binary digits of `width`.
pub open spec fn log_steps(width: nat) -> nat
    decreases width,
{
    if width == 0 {
        0
    } else {
        1 + log_steps(width / 2)
    }
}

/// `log_steps` is monotone.
pub proof fn lemma_log_steps_mono(a: nat, b: nat)
    requires
        a <= b,
    ensures
        log_steps(a) <= log_steps(b),
    decreases b,
{
    if a > 0 {
        lemma_log_steps_mono(a / 2, b / 2);
    }
}

impl Player {
    /// The secret number.
    pub closed spec fn number(&self) -> u32 {
        self.the_number
    }

    /// How many questions the player has answered so far.
    pub closed spec fn steps_spec(&self) -> nat {
        self.steps as nat
    }

    /// The questions the player has answered so far, in order.
    pub closed spec fn questions(&self) -> Seq<Question> {
        self.asked@
    }

    /// A player whose secret is `the_number`, asked nothing yet.
    pub fn new(the_number: u32) -> (r: Player)
        ensures
            r.number() == the_number,
            r.steps_spec() == 0,
            r.questions() == Seq::<Question>::empty(),
    {
        Player { the_number, steps: 0, asked: Ghost(Seq::empty()) }
    }

    /// How many questions the player has answered so far.
    pub fn steps(&self) -> (r: u64)
        ensures
            r == self.steps_spec(),
    {
        self.steps
    }

    fn count_question(&mut self, q: Question)
        ensures
            final(self).number() == old(self).number(),
            final(self).steps_spec() == count_up(old(self).steps_spec(), 1),
            final(self).questions() == old(self).questions().push(q),
    {
        self.asked = Ghost(self.asked@.push(q));
        if self.steps < u64::MAX {
            self.steps = self.steps + 1;
        }
    }
}

/// The questions a strategy may ask.
pub trait PlayerTrait {
    /// Whether the secret number is `guess`.
    fn ask_if_equal(&mut self, guess: u32) -> bool;

    /// How the secret number compares with `guess`: `-1` if it is smaller,
    /// `0` if it is equal, `1` if it is larger.
    fn ask_to_compare(&mut self, guess: u32) -> i32;
}

impl PlayerTrait for Player {
    fn ask_if_equal(&mut self, guess: u32) -> (r: bool)
        ensures
            r == (old(self).number() == guess),
            final(self).number() == old(self).number(),
            final(self).steps_spec() == count_up(old(self).steps_spec(), 1),
            final(self).questions() == old(self).questions().push(Question::IfEqual(guess)),
    {
        self.count_question(Question::IfEqual(guess));
        self.the_number == guess
    }

    fn ask_to_compare(&mut self, guess: u32) -> (r: i32)
        ensures
            r == (if old(self).number() < guess {
                -1int
            } else if old(self).number() == guess {
                0int
            } else {
                1int
            }),
            final(self).number() == old(self).number(),
            final(self).steps_spec() == count_up(old(self).steps_spec(), 1),
            final(self).questions() == old(self).questions().push(Question::Compare(guess)),
    {
        self.count_question(Question::Compare(guess));
        if self.the_number < guess {
            -1
        } else if self.the_number == guess {
            0
        } else {
            1
        }
    }
}

/// A way of finding the secret number, known to lie in `[min, max]`.
pub trait Strategy {
    /// Returns the player's secret number, which lies in `[min, max]`.
    fn guess_the_number(player: &mut Player, min: u32, max: u32) -> (r: u32)
        requires
            min <= old(player).number() <= max,
        ensures
            r == old(player).number(),
            final(player).number() == old(player).number(),
            final(player).steps_spec() >= old(player).steps_spec(),
    ;
}

/// Asks about every number from `min` upwards until it hits the secret.
pub struct Part1 {}

/// Binary search with comparison questions.
pub struct Part2 {}

impl Strategy for Part1 {
    /// Asks whether the number is `min`, `min + 1`, ... in turn, and so finds
    /// it after exactly `number - min + 1` questions.
    fn guess_the_number(player: &mut Player, min: u32, max: u32) -> (r: u32)
        ensures
            final(player).steps_spec() == count_up(
                old(player).steps_spec(),
                (old(player).number() - min + 1) as nat,
            ),
            final(player).questions() == old(player).questions() + linear_questions(
                min,
                old(player).number(),
            ),
    {
        let ghost secret = player.number();
        let ghost steps0 = player.steps_spec();
        let ghost q0 = player.questions();
        let mut guess = min;
        loop
            invariant
                min <= guess <= secret,
                secret <= max,
                player.number() == secret,
                secret == old(player).number(),
                steps0 == old(player).steps_spec(),
                player.steps_spec() == count_up(steps0, (guess - min) as nat),
                q0 == old(player).questions(),
                player.questions() == q0 + Seq::new(
                    (guess - min) as nat,
                    |k: int| Question::IfEqual((min + k) as u32),
                ),
            decreases secret - guess,
        {
            if player.ask_if_equal(guess) {
                assert(player.questions() =~= q0 + linear_questions(min, secret));
                return guess;
            }
            guess = guess + 1;
            assert(player.questions() =~= q0 + Seq::new(
                (guess - min) as nat,
                |k: int| Question::IfEqual((min + k) as u32),
            ));
        }
    }
}

impl Strategy for Part2 {
    /// Asks the questions of `binary_questions`, so finds the number after
    /// at most `log_steps(max - min + 1)` questions (the number of binary
    /// digits of the width of the range), all about numbers in `[min, max]`.
    fn guess_the_number(player: &mut Player, min: u32, max: u32) -> (r: u32)
        ensures
            final(player).steps_spec() <= count_up(
                old(player).steps_spec(),
                log_steps((max - min + 1) as nat),
            ),
            final(player).questions() == old(player).questions() + binary_questions(
                min as int,
                max as int,
                old(player).number() as int,
            ),
        decreases max - min,
    {
        let ghost q0 = player.questions();
        let ghost steps0 = player.steps_spec();
        let ghost w = (max - min + 1) as nat;
        let mid = min + (max - min) / 2;
        match player.ask_to_compare(mid) {
            0 => {
                assert(player.questions() =~= q0 + binary_questions(
                    min as int,
                    max as int,
                    player.number() as int,
                ));
                mid
            },
            -1 => {
                let r = Self::guess_the_number(player, min, mid - 1);
                proof {
                    lemma_log_steps_mono((mid - 1 - min + 1) as nat, w / 2);
                    assert(player.questions() =~= q0 + binary_questions(
                        min as int,
                        max as int,
                        player.number() as int,
                    ));
                }
                r
            },
            1 => {
                let r = Self::guess_the_number(player, mid + 1, max);
                proof {
                    lemma_log_steps_mono((max - (mid + 1) + 1) as nat, w / 2);
                    assert(player.questions() =~= q0 + binary_questions(
                        min as int,
                        max as int,
                        player.number() as int,
                    ));
                }
                r
            },
            _ => {
                assert(false);
                0
            },
        }
    }
}

} // verus!
