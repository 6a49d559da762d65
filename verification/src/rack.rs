//! The rack partitioner: every ordered tile sequence drawable from a rack.
//!
//! Tiles are consumed by multiset availability, tracked per distinct letter
//! value, so two equal tiles are never double-counted. A blank (`?`) may be
//! played as any letter; it is emitted lower-case to mark that it scores 0.
use vstd::prelude::*;

verus! {

/// The 26 lower-case letters a blank can be played as.
pub open spec fn blank_letters_spec() -> Seq<char> {
    seq![
        'a', 'b', 'c', 'd', 'e', 'f', 'g', 'h', 'i', 'j', 'k', 'l', 'm', 'n', 'o', 'p', 'q', 'r',
        's', 't', 'u', 'v', 'w', 'x', 'y', 'z',
    ]
}

fn blank_letters() -> (r: Vec<char>)
    ensures
        r@ == blank_letters_spec(),
{
    let mut v: Vec<char> = Vec::new();
    v.push('a');
    v.push('b');
    v.push('c');
    v.push('d');
    v.push('e');
    v.push('f');
    v.push('g');
    v.push('h');
    v.push('i');
    v.push('j');
    v.push('k');
    v.push('l');
    v.push('m');
    v.push('n');
    v.push('o');
    v.push('p');
    v.push('q');
    v.push('r');
    v.push('s');
    v.push('t');
    v.push('u');
    v.push('v');
    v.push('w');
    v.push('x');
    v.push('y');
    v.push('z');
    proof {
        assert(v@ =~= blank_letters_spec());
    }
    v
}

/// The letters one rack tile can be emitted as.
pub open spec fn letters_for(c: char) -> Seq<char> {
    if c == '?' {
        blank_letters_spec()
    } else {
        seq![c]
    }
}

/// A sequence of sequences, as plain sequences.
pub open spec fn deep(s: Seq<Vec<char>>) -> Seq<Seq<char>> {
    s.map_values(|v: Vec<char>| v@)
}

/// Every ordered sequence of 1 to `rack.len()` tiles drawable from the rack,
/// blanks expanded, in a fixed enumeration order.
pub open spec fn parts_spec(rack: Seq<char>) -> Seq<Seq<char>>
    decreases rack.len(), 3int, 0int,
{
    parts_from_spec(rack, 0, Seq::empty())
}

/// The enumeration from rack index `i` on, skipping letter values in `seen`.
pub open spec fn parts_from_spec(rack: Seq<char>, i: int, seen: Seq<char>) -> Seq<Seq<char>>
    decreases rack.len(), 2int, rack.len() - i,
{
    if i < 0 || i >= rack.len() {
        Seq::empty()
    } else {
        let c = rack[i];
        (if seen.contains(c) {
            Seq::empty()
        } else {
            expansions_spec(rack.remove(i), letters_for(c))
        }) + parts_from_spec(rack, i + 1, seen.push(c))
    }
}

/// All sequences beginning with one of `letters`, continued from `rest`.
pub open spec fn expansions_spec(rest: Seq<char>, letters: Seq<char>) -> Seq<Seq<char>>
    decreases rest.len() + 1, 1int, letters.len(),
{
    if letters.len() == 0 {
        Seq::empty()
    } else {
        with_first_spec(rest, letters[0]) + expansions_spec(rest, letters.drop_first())
    }
}

/// The sequences that start with `l`: `l` alone, then `l` before every part
/// of the remaining rack.
pub open spec fn with_first_spec(rest: Seq<char>, l: char) -> Seq<Seq<char>>
    decreases rest.len() + 1, 0int, 0int,
{
    seq![seq![l]] + parts_spec(rest).map_values(|p: Seq<char>| seq![l] + p)
}

/// Every ordered sequence of 1 to `rack.len()` tiles drawable from the rack,
/// where a blank may stand for any letter (emitted lower-case). Pure: the
/// rack is not touched, and the result depends on the rack alone.
pub fn gen_parts(rack: &Vec<char>) -> (r: Vec<Vec<char>>)
    ensures
        deep(r@) == parts_spec(rack@),
    decreases rack@.len(), 3int, 0int,
{
    let seen: Vec<char> = Vec::new();
    let r = gen_parts_from(rack, 0, seen);
    r
}

fn gen_parts_from(rack: &Vec<char>, i: usize, seen: Vec<char>) -> (r: Vec<Vec<char>>)
    ensures
        deep(r@) == parts_from_spec(rack@, i as int, seen@),
    decreases rack@.len(), 2int, rack@.len() - i,
{
    if i >= rack.len() {
        let r: Vec<Vec<char>> = Vec::new();
        proof {
            assert(deep(r@) =~= parts_from_spec(rack@, i as int, seen@));
        }
        return r;
    }
    let c = rack[i];
    let mut result: Vec<Vec<char>>;
    if crate::utils::contains_item(&seen, c) {
        result = Vec::new();
        proof {
            assert(deep(result@) =~= Seq::<Seq<char>>::empty());
        }
    } else {
        let mut rest = rack.clone();
        rest.remove(i);
        let letters = if c == '?' {
            blank_letters()
        } else {
            let mut v: Vec<char> = Vec::new();
            v.push(c);
            proof {
                assert(v@ =~= seq![c]);
            }
            v
        };
        proof {
            assert(letters@ == letters_for(c));
        }
        result = expansions(&rest, &letters, 0);
        proof {
            lemma_expansions_from(rest@, letters@, 0);
            assert(letters@.skip(0) =~= letters@);
        }
    }
    let ghost head = deep(result@);
    let mut seen2 = seen;
    seen2.push(c);
    let mut tail = gen_parts_from(rack, i + 1, seen2);
    let ghost tailv = deep(tail@);
    result.append(&mut tail);
    proof {
        assert(deep(result@) =~= head + tailv);
        assert(deep(result@) =~= parts_from_spec(rack@, i as int, seen@));
    }
    result
}

/// `expansions_spec` from letter index `j` on.
pub open spec fn expansions_from(rest: Seq<char>, letters: Seq<char>, j: int) -> Seq<Seq<char>>
    decreases letters.len() - j,
{
    if j < 0 || j >= letters.len() {
        Seq::empty()
    } else {
        with_first_spec(rest, letters[j]) + expansions_from(rest, letters, j + 1)
    }
}

/// The two ways of slicing the expansion agree.
proof fn lemma_expansions_from(rest: Seq<char>, letters: Seq<char>, j: int)
    requires
        0 <= j <= letters.len(),
    ensures
        expansions_from(rest, letters, j) == expansions_spec(rest, letters.skip(j)),
    decreases letters.len() - j,
{
    if j < letters.len() {
        lemma_expansions_from(rest, letters, j + 1);
        assert(letters.skip(j)[0] == letters[j]);
        assert(letters.skip(j).drop_first() =~= letters.skip(j + 1));
    } else {
        assert(letters.skip(j) =~= Seq::<char>::empty());
    }
}

fn expansions(rest: &Vec<char>, letters: &Vec<char>, j: usize) -> (r: Vec<Vec<char>>)
    ensures
        deep(r@) == expansions_from(rest@, letters@, j as int),
    decreases rest@.len() + 1, 1int, letters@.len() - j,
{
    if j >= letters.len() {
        let r: Vec<Vec<char>> = Vec::new();
        proof {
            assert(deep(r@) =~= expansions_from(rest@, letters@, j as int));
        }
        return r;
    }
    let l = letters[j];
    let mut result: Vec<Vec<char>> = Vec::new();
    let mut single: Vec<char> = Vec::new();
    single.push(l);
    result.push(single);
    let subs = gen_parts(rest);
    let mut k: usize = 0;
    proof {
        assert(deep(result@) =~= seq![seq![l]]);
    }
    while k < subs.len()
        invariant
            k <= subs@.len(),
            deep(subs@) == parts_spec(rest@),
            deep(result@) == seq![seq![l]] + parts_spec(rest@).map_values(
                |p: Seq<char>| seq![l] + p,
            ).take(k as int),
        decreases subs@.len() - k,
    {
        let mut item: Vec<char> = Vec::new();
        item.push(l);
        let mut m: usize = 0;
        let sub = &subs[k];
        while m < sub.len()
            invariant
                m <= sub@.len(),
                item@ == seq![l] + sub@.take(m as int),
            decreases sub@.len() - m,
        {
            item.push(sub[m]);
            proof {
                assert(item@ =~= seq![l] + sub@.take(m + 1));
            }
            m = m + 1;
        }
        proof {
            assert(sub@.take(sub@.len() as int) =~= sub@);
            assert(item@ == seq![l] + sub@);
        }
        result.push(item);
        proof {
            let mapped = parts_spec(rest@).map_values(|p: Seq<char>| seq![l] + p);
            assert(deep(subs@)[k as int] == subs@[k as int]@);
            assert(mapped[k as int] == seq![l] + parts_spec(rest@)[k as int]);
            assert(item@ == mapped[k as int]);
            assert(mapped.take(k + 1) =~= mapped.take(k as int).push(mapped[k as int]));
            assert(deep(result@) =~= (seq![seq![l]] + mapped.take(k as int)).push(item@));
            assert(deep(result@) =~= seq![seq![l]] + mapped.take(k + 1));
        }
        k = k + 1;
    }
    proof {
        assert(parts_spec(rest@).map_values(|p: Seq<char>| seq![l] + p).take(
            parts_spec(rest@).len() as int,
        ) =~= parts_spec(rest@).map_values(|p: Seq<char>| seq![l] + p));
        assert(deep(result@) == with_first_spec(rest@, l));
    }
    let mut tail = expansions(rest, letters, j + 1);
    let ghost head = deep(result@);
    let ghost tailv = deep(tail@);
    result.append(&mut tail);
    proof {
        assert(deep(result@) =~= head + tailv);
    }
    result
}


/// No two rack tiles carry the same letter.
pub open spec fn distinct_letters(rack: Seq<char>) -> bool {
    forall|i: int, j: int| 0 <= i < j < rack.len() ==> rack[i] != rack[j]
}

/// The rack holds no blank.
pub open spec fn no_blanks(rack: Seq<char>) -> bool {
    forall|i: int| 0 <= i < rack.len() ==> rack[i] != '?'
}

/// The falling factorial k! / (k-i)!: ordered selections of i out of k.
pub open spec fn falling(k: nat, i: nat) -> int
    decreases i,
{
    if i == 0 {
        1
    } else {
        k * falling((k - 1) as nat, (i - 1) as nat)
    }
}

/// The sum over m in 1..=i of k!/(k-m)!.
pub open spec fn sum_falling(k: nat, i: nat) -> int
    decreases i,
{
    if i == 0 {
        0
    } else {
        falling(k, i) + sum_falling(k, (i - 1) as nat)
    }
}

/// How many sequences the partitioner yields from n distinct plain letters.
pub open spec fn part_count(n: nat) -> int
    decreases n,
{
    if n == 0 {
        0
    } else {
        n * (1 + part_count((n - 1) as nat))
    }
}

proof fn lemma_sum_falling_rec(k: nat, i: nat)
    requires
        i >= 1,
    ensures
        sum_falling(k, i) == k * (1 + sum_falling((k - 1) as nat, (i - 1) as nat)),
    decreases i,
{
    if i == 1 {
        assert(sum_falling(k, 1) == falling(k, 1) + sum_falling(k, 0));
        assert(sum_falling(k, 0) == 0);
        assert(falling(k, 1) == k * falling((k - 1) as nat, 0));
        assert(falling((k - 1) as nat, 0) == 1);
        assert(sum_falling((k - 1) as nat, 0) == 0);
    } else {
        lemma_sum_falling_rec(k, (i - 1) as nat);
        let a = falling((k - 1) as nat, (i - 1) as nat);
        let b = sum_falling((k - 1) as nat, (i - 2) as nat);
        assert(sum_falling(k, i) == falling(k, i) + sum_falling(k, (i - 1) as nat));
        assert(falling(k, i) == k * a);
        assert(sum_falling(k, (i - 1) as nat) == k * (1 + b));
        assert(k * a + k * (1 + b) == k * (1 + (a + b))) by (nonlinear_arith);
        assert(sum_falling(k, i) == k * (1 + (a + b)));
        assert(sum_falling((k - 1) as nat, (i - 1) as nat) == falling((k - 1) as nat, (i - 1) as nat)
            + sum_falling((k - 1) as nat, (i - 2) as nat));
        assert(sum_falling((k - 1) as nat, (i - 1) as nat) == a + b);
    }
}

proof fn lemma_part_count_is_sum(k: nat)
    ensures
        part_count(k) == sum_falling(k, k),
    decreases k,
{
    if k > 0 {
        lemma_part_count_is_sum((k - 1) as nat);
        lemma_sum_falling_rec(k, k);
    }
}

proof fn lemma_expansions_count(rest: Seq<char>, letters: Seq<char>)
    ensures
        expansions_spec(rest, letters).len() == letters.len() * (1 + parts_spec(rest).len()),
    decreases letters.len(),
{
    if letters.len() > 0 {
        lemma_expansions_count(rest, letters.drop_first());
        assert(with_first_spec(rest, letters[0]).len() == 1 + parts_spec(rest).len());
        assert(letters.drop_first().len() * (1 + parts_spec(rest).len()) + (1 + parts_spec(
            rest,
        ).len()) == letters.len() * (1 + parts_spec(rest).len())) by (nonlinear_arith)
            requires
                letters.len() >= 1,
        ;
    }
}

proof fn lemma_remove_keeps_shape(rack: Seq<char>, i: int)
    requires
        0 <= i < rack.len(),
        distinct_letters(rack),
        no_blanks(rack),
    ensures
        distinct_letters(rack.remove(i)),
        no_blanks(rack.remove(i)),
{
    let r = rack.remove(i);
    assert forall|a: int, b: int| 0 <= a < b < r.len() implies r[a] != r[b] by {
        let ia = if a < i {
            a
        } else {
            a + 1
        };
        let ib = if b < i {
            b
        } else {
            b + 1
        };
        assert(r[a] == rack[ia] && r[b] == rack[ib]);
    }
    assert forall|a: int| 0 <= a < r.len() implies r[a] != '?' by {
        let ia = if a < i {
            a
        } else {
            a + 1
        };
        assert(r[a] == rack[ia]);
    }
}

proof fn lemma_parts_from_count(rack: Seq<char>, i: int, seen: Seq<char>)
    requires
        distinct_letters(rack),
        no_blanks(rack),
        0 <= i <= rack.len(),
        forall|j: int| i <= j < rack.len() ==> !seen.contains(#[trigger] rack[j]),
    ensures
        rack.len() == 0 ==> parts_from_spec(rack, i, seen).len() == 0,
        rack.len() > 0 ==> parts_from_spec(rack, i, seen).len() == (rack.len() - i) * (1
            + part_count((rack.len() - 1) as nat)),
    decreases rack.len(), 2int, rack.len() - i,
{
    if i < rack.len() {
        let c = rack[i];
        assert(!seen.contains(c));
        let rest = rack.remove(i);
        lemma_remove_keeps_shape(rack, i);
        lemma_parts_count(rest);
        lemma_expansions_count(rest, letters_for(c));
        assert(letters_for(c).len() == 1);
        assert forall|j: int| i + 1 <= j < rack.len() implies !seen.push(c).contains(
            #[trigger] rack[j],
        ) by {
            assert(rack[j] != c);
            if seen.push(c).contains(rack[j]) {
                let w = choose|w: int| 0 <= w < seen.push(c).len() && seen.push(c)[w] == rack[j];
                assert(w < seen.len());
                assert(seen[w] == rack[j]);
                assert(seen.contains(rack[j]));
            }
        }
        lemma_parts_from_count(rack, i + 1, seen.push(c));
        let pc = part_count((rack.len() - 1) as nat);
        assert(parts_spec(rest).len() == pc);
        assert(parts_from_spec(rack, i, seen) == expansions_spec(rest, letters_for(c))
            + parts_from_spec(rack, i + 1, seen.push(c)));
        assert(expansions_spec(rest, letters_for(c)).len() == 1 * (1 + pc));
        assert(parts_from_spec(rack, i + 1, seen.push(c)).len() == (rack.len() - i - 1) * (1
            + pc));
        assert((1 + pc) + (rack.len() - i - 1) * (1 + pc) == (rack.len() - i) * (1 + pc))
            by (nonlinear_arith);
        assert(parts_from_spec(rack, i, seen).len() == (1 + pc) + (rack.len() - i - 1) * (1
            + pc));
        assert(parts_from_spec(rack, i, seen).len() == (rack.len() - i) * (1 + pc));
    } else {
        assert(parts_from_spec(rack, i, seen) =~= Seq::<Seq<char>>::empty());
        assert(parts_from_spec(rack, i, seen).len() == 0);
        if rack.len() > 0 {
            assert(rack.len() - i == 0);
            assert((rack.len() - i) * (1 + part_count((rack.len() - 1) as nat)) == 0)
                by (nonlinear_arith)
                requires
                    rack.len() - i == 0,
            ;
        }
    }
}

/// Partition exhaustiveness: a rack of k distinct plain letters (no blank)
/// yields exactly the sum over i in 1..=k of k!/(k-i)! ordered sequences.
pub proof fn lemma_parts_count(rack: Seq<char>)
    requires
        distinct_letters(rack),
        no_blanks(rack),
    ensures
        parts_spec(rack).len() == part_count(rack.len()),
        parts_spec(rack).len() == sum_falling(rack.len(), rack.len()),
    decreases rack.len(), 3int, 0int,
{
    lemma_parts_from_count(rack, 0, Seq::empty());
    lemma_part_count_is_sum(rack.len());
    if rack.len() > 0 {
        assert(rack.len() * (1 + part_count((rack.len() - 1) as nat)) == part_count(rack.len()));
    }
}



/// A blank played as any letter scores zero: the lower-case letters the
/// partitioner emits for a blank all carry tile value 0, while the word
/// records the upper-case letter.
pub proof fn lemma_blank_letters_score_zero(c: char)
    requires
        blank_letters_spec().contains(c),
    ensures
        crate::bag::letter_value_spec(c) == 0,
        crate::utils::upper_spec(c) != c,
{
    let i = choose|i: int| 0 <= i < blank_letters_spec().len() && blank_letters_spec()[i] == c;
    assert(blank_letters_spec()[i] == c);
}


} // verus!
