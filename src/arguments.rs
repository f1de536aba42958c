//! Option values, input lists and the records that make up the spool.

use permutate::Permutator;
use vstd::prelude::*;

use crate::text::{
    all_digits, chars_of, digit_value, digits_value, find_from, first_index, is_digit, push_char,
    push_text, spaced,
};

verus! {

broadcast use vstd::string::group_string_axioms;

pub const INPUTS_ARE_COMMANDS: u16 = 1;
pub const PIPE_IS_ENABLED: u16 = 2;
pub const SHELL_ENABLED: u16 = 4;
pub const QUIET_MODE: u16 = 8;
pub const VERBOSE_MODE: u16 = 16;
pub const DASH_EXISTS: u16 = 32;
pub const DRY_RUN: u16 = 64;
pub const SHELL_QUOTE: u16 = 128;
pub const ETA: u16 = 256;
pub const JOBLOG: u16 = 512;
pub const JOBLOG_8601: u16 = 1024;
pub const ION_EXISTS: u16 = 2048;

/// Why the program's arguments could not be turned into a run.
#[derive(Debug, PartialEq, Eq)]
pub enum ParseErr {
    /// The argument at this index is not one that the program knows.
    InvalidArgument(usize),
    /// `--delay` was given no value.
    DelayNoValue,
    /// The value after `--delay`, at this index, is not a number.
    DelayNaN(usize),
    /// `--joblog` was given no value.
    JoblogNoValue,
    /// `--jobs` or `-j` was given no value.
    JobsNoValue,
    /// The value of `--jobs` or `-j` is not a job count.
    JobsNaN(String),
    /// `--max-args` or `-n` was given no value.
    MaxArgsNoValue,
    /// The value after `--max-args` or `-n`, at this index, is not a number.
    MaxArgsNaN(usize),
    /// `--mem-free` was given no value.
    MemNoValue,
    /// The value after `--mem-free`, at this index, is not a size.
    MemInvalid(usize),
    /// `--timeout` was given no value.
    TimeoutNoValue,
    /// The value after `--timeout`, at this index, is not a number.
    TimeoutNaN(usize),
    /// `--tmpdir` was given no value.
    WorkDirNoValue,
    /// The command holds a quote that is never closed.
    NonTerminated(String),
    /// No input was given.
    NoArguments,
}

/// Each tuple of `rest` with `head` put in front.
pub open spec fn prefix_each(head: Seq<char>, rest: Seq<Seq<Seq<char>>>) -> Seq<Seq<Seq<char>>> {
    rest.map_values(|r: Seq<Seq<char>>| seq![head] + r)
}

/// For each member of `heads` in order, every tuple of `rest` prefixed with it.
pub open spec fn product_step(heads: Seq<Seq<char>>, rest: Seq<Seq<Seq<char>>>) -> Seq<Seq<Seq<char>>>
    decreases heads.len(),
{
    if heads.len() == 0 {
        Seq::empty()
    } else {
        prefix_each(heads[0], rest) + product_step(heads.drop_first(), rest)
    }
}

/// The cartesian product of `lists`: tuples in lexicographic order, the last
/// list varying fastest.
pub open spec fn cartesian(lists: Seq<Seq<Seq<char>>>) -> Seq<Seq<Seq<char>>>
    decreases lists.len(),
{
    if lists.len() == 0 {
        seq![Seq::empty()]
    } else {
        product_step(lists[0], cartesian(lists.drop_first()))
    }
}

/// The number of tuples in the cartesian product of `lists`.
pub open spec fn product_len(lists: Seq<Seq<Seq<char>>>) -> nat
    decreases lists.len(),
{
    if lists.len() == 0 {
        1
    } else {
        lists[0].len() * product_len(lists.drop_first())
    }
}

/// Whether every list in `lists` has at least one member.
pub open spec fn no_empty_list(lists: Seq<Seq<Seq<char>>>) -> bool {
    forall|i: int| 0 <= i < lists.len() ==> #[trigger] lists[i].len() > 0
}

/// Relies on `permutate::Permutator`: over two or more nonempty lists it
/// yields every tuple of the product, the last list advancing fastest.
#[verifier::external_body]
fn permutations(lists: &Vec<Vec<String>>) -> (r: Vec<Vec<String>>)
    requires
        lists@.len() >= 2,
        no_empty_list(lists.deep_view()),
        product_len(lists.deep_view()) <= usize::MAX,
    ensures
        r.deep_view() == cartesian(lists.deep_view()),
{
    let borrowed: Vec<Vec<&str>> = lists.iter().map(|l| l.iter().map(|s| s.as_str()).collect()).collect();
    let slices: Vec<&[&str]> = borrowed.iter().map(|l| l.as_slice()).collect();
    Permutator::new(&slices[..]).map(|p| p.into_iter().map(String::from).collect()).collect()
}


proof fn lemma_product_step_len(heads: Seq<Seq<char>>, rest: Seq<Seq<Seq<char>>>)
    ensures
        product_step(heads, rest).len() == heads.len() * rest.len(),
    decreases heads.len(),
{
    if heads.len() > 0 {
        lemma_product_step_len(heads.drop_first(), rest);
        assert(heads.len() * rest.len() == rest.len() + (heads.len() - 1) * rest.len())
            by (nonlinear_arith);
    }
}

/// The product has as many tuples as the lengths of the lists multiplied.
pub proof fn lemma_cartesian_len(lists: Seq<Seq<Seq<char>>>)
    ensures
        cartesian(lists).len() == product_len(lists),
    decreases lists.len(),
{
    if lists.len() > 0 {
        lemma_cartesian_len(lists.drop_first());
        lemma_product_step_len(lists[0], cartesian(lists.drop_first()));
    }
}

proof fn lemma_product_len_grows(lists: Seq<Seq<Seq<char>>>, j: int, i: int)
    requires
        0 <= j <= i <= lists.len(),
        no_empty_list(lists),
    ensures
        product_len(lists.skip(j)) >= product_len(lists.skip(i)),
    decreases i - j,
{
    if j < i {
        lemma_product_len_grows(lists, j + 1, i);
        assert(lists.skip(j).drop_first() =~= lists.skip(j + 1));
        let a = lists[j].len();
        let b = product_len(lists.skip(j + 1));
        assert(a >= 1);
        assert(a * b >= b) by (nonlinear_arith)
            requires a >= 1;
    }
}

/// The number of tuples in the product of `lists`, or `None` where it does
/// not fit in a `usize`.
pub fn product_size(lists: &Vec<Vec<String>>) -> (r: Option<usize>)
    ensures
        match r {
            Some(n) => n == product_len(lists.deep_view()),
            None => product_len(lists.deep_view()) > usize::MAX,
        },
{
    let ghost l = lists.deep_view();
    let mut e: usize = 0;
    while e < lists.len()
        invariant
            l == lists.deep_view(),
            e <= lists.len(),
            forall|j: int| 0 <= j < e ==> #[trigger] l[j].len() > 0,
        decreases lists.len() - e,
    {
        if lists[e].len() == 0 {
            proof {
                lemma_product_has_empty(l, e as int);
            }
            return Some(0);
        }
        e += 1;
    }
    let mut acc: usize = 1;
    let mut i = lists.len();
    assert(l.skip(i as int) =~= Seq::<Seq<Seq<char>>>::empty());
    while i > 0
        invariant
            l == lists.deep_view(),
            no_empty_list(l),
            i <= l.len(),
            acc == product_len(l.skip(i as int)),
        decreases i,
    {
        i -= 1;
        let n = lists[i].len();
        assert(l.skip(i as int).drop_first() =~= l.skip(i + 1));
        assert(n == l[i as int].len());
        match acc.checked_mul(n) {
            Some(m) => {
                acc = m;
            },
            None => {
                proof {
                    assert(product_len(l.skip(i as int)) == n * acc);
                    assert(n * acc == acc * n) by (nonlinear_arith);
                    lemma_product_len_grows(l, 0, i as int);
                    assert(l.skip(0) =~= l);
                }
                return None;
            },
        }
    }
    assert(l.skip(0) =~= l);
    Some(acc)
}

/// The members of `items[from..to]` joined with single spaces.
pub fn join_spaced(items: &Vec<String>, from: usize, to: usize) -> (r: String)
    requires
        from <= to <= items.len(),
    ensures
        r@ == spaced(items.deep_view().subrange(from as int, to as int)),
{
    let ghost v = items.deep_view();
    let mut r = String::new();
    let mut i = from;
    while i < to
        invariant
            from <= i <= to <= items.len(),
            v == items.deep_view(),
            r@ == spaced(v.subrange(from as int, i as int)),
        decreases to - i,
    {
        let ghost before = v.subrange(from as int, i as int);
        let ghost after = v.subrange(from as int, i + 1);
        assert(after.drop_last() =~= before);
        if i > from {
            push_char(&mut r, ' ');
        } else {
            assert(before.len() == 0);
        }
        push_text(&mut r, items[i].as_str());
        assert(r@ == spaced(after));
        i += 1;
    }
    r
}

/// Space-joined groups of up to `n` consecutive inputs when `n` is two or
/// more; the inputs unchanged otherwise.
pub open spec fn grouped(inputs: Seq<Seq<char>>, n: nat) -> Seq<Seq<char>>
    decreases inputs.len(),
{
    if n < 2 {
        inputs
    } else if inputs.len() == 0 {
        Seq::empty()
    } else if inputs.len() <= n {
        seq![spaced(inputs)]
    } else {
        seq![spaced(inputs.take(n as int))] + grouped(inputs.skip(n as int), n)
    }
}

/// The count of records that grouping `total` inputs by `n` gives: `total`
/// divided by `n` rounded up, with `n` taken as one when smaller.
pub open spec fn group_count(total: nat, n: nat) -> nat {
    let m: nat = if n < 1 { 1 } else { n };
    ((total + m - 1) / m as int) as nat
}

/// Grouping `inputs` by `max_args` yields exactly the rounded-up quotient of
/// the input count by `max(1, max_args)` records.
pub proof fn lemma_grouped_count(inputs: Seq<Seq<char>>, max_args: nat)
    ensures
        grouped(inputs, max_args).len() == group_count(inputs.len(), max_args),
    decreases inputs.len(),
{
    let t = inputs.len() as int;
    if max_args < 2 {
        if max_args == 1 {
            assert((t + 1 - 1) / 1 == t);
        } else {
            assert((t + 1 - 1) / 1 == t);
        }
    } else if inputs.len() == 0 {
        let m = max_args as int;
        assert((m - 1) / m == 0) by (nonlinear_arith)
            requires m >= 2;
    } else if inputs.len() <= max_args {
        let m = max_args as int;
        assert((t + m - 1) / m == 1) by (nonlinear_arith)
            requires m >= 2, 1 <= t <= m;
    } else {
        lemma_grouped_count(inputs.skip(max_args as int), max_args);
        let m = max_args as int;
        assert((t + m - 1) / m == 1 + (t - m + m - 1) / m) by (nonlinear_arith)
            requires m >= 2, t > m;
    }
}

/// Space-joins groups of up to `max_args` consecutive inputs into single
/// records; with `max_args` below two the inputs are kept as they are.
pub fn group_inputs(inputs: &Vec<String>, max_args: usize) -> (r: Vec<String>)
    ensures
        r.deep_view() == grouped(inputs.deep_view(), max_args as nat),
{
    let ghost v = inputs.deep_view();
    let mut r: Vec<String> = Vec::new();
    if max_args < 2 {
        let mut i: usize = 0;
        while i < inputs.len()
            invariant
                i <= inputs.len(),
                v == inputs.deep_view(),
                r.deep_view() == v.take(i as int),
            decreases inputs.len() - i,
        {
            let ghost before = r.deep_view();
            r.push(inputs[i].clone());
            assert(r.deep_view() =~= before.push(v[i as int]));
            assert(r.deep_view() =~= v.take(i + 1));
            i += 1;
        }
        assert(v.take(i as int) =~= v);
        return r;
    }
    let mut i: usize = 0;
    assert(v.skip(0) =~= v);
    while i < inputs.len()
        invariant
            max_args >= 2,
            i <= inputs.len(),
            v == inputs.deep_view(),
            r.deep_view() + grouped(v.skip(i as int), max_args as nat) == grouped(v, max_args as nat),
        decreases inputs.len() - i,
    {
        let rest = inputs.len() - i;
        let end = if rest <= max_args { inputs.len() } else { i + max_args };
        let record = join_spaced(inputs, i, end);
        let ghost tail = v.skip(i as int);
        proof {
            if rest <= max_args {
                assert(tail =~= v.subrange(i as int, end as int));
                assert(v.skip(end as int) =~= Seq::<Seq<char>>::empty());
            } else {
                assert(tail.take(max_args as int) =~= v.subrange(i as int, end as int));
                assert(tail.skip(max_args as int) =~= v.skip(end as int));
            }
        }
        let ghost before = r.deep_view();
        let ghost rec = record@;
        r.push(record);
        assert(r.deep_view() =~= before.push(rec));
        assert(before.push(rec) + grouped(v.skip(end as int), max_args as nat) =~= before
            + grouped(tail, max_args as nat));
        i = end;
    }
    assert(v.skip(i as int) =~= Seq::<Seq<char>>::empty());
    assert(r.deep_view() + Seq::<Seq<char>>::empty() =~= r.deep_view());
    r
}


/// Each tuple of `tuples` joined with single spaces.
pub open spec fn spaced_each(tuples: Seq<Seq<Seq<char>>>) -> Seq<Seq<char>> {
    tuples.map_values(|t: Seq<Seq<char>>| spaced(t))
}

/// The inputs that `lists` stand for before grouping: the space-joined
/// tuples of their product when there are two or more, the members of the
/// only list when there is one.
pub open spec fn combined(lists: Seq<Seq<Seq<char>>>) -> Seq<Seq<char>> {
    if lists.len() >= 2 {
        spaced_each(cartesian(lists))
    } else if lists.len() == 1 {
        lists[0]
    } else {
        Seq::empty()
    }
}

/// The records of the spool for `lists` grouped by `max_args`.
pub open spec fn spool_of(lists: Seq<Seq<Seq<char>>>, max_args: nat) -> Seq<Seq<char>> {
    grouped(combined(lists), max_args)
}

/// The inputs of `lists`, combined as [`combined`] says.
fn combine_lists(lists: &Vec<Vec<String>>) -> (r: Vec<String>)
    requires
        product_len(lists.deep_view()) <= usize::MAX,
    ensures
        r.deep_view() == combined(lists.deep_view()),
{
    let ghost l = lists.deep_view();
    if lists.len() == 0 {
        return Vec::new();
    }
    if lists.len() == 1 {
        let mut r: Vec<String> = Vec::new();
        let mut i: usize = 0;
        while i < lists[0].len()
            invariant
                l == lists.deep_view(),
                lists.len() == 1,
                i <= lists[0].len(),
                r.deep_view() == l[0].take(i as int),
            decreases lists[0].len() - i,
        {
            let ghost before = r.deep_view();
            r.push(lists[0][i].clone());
            assert(r.deep_view() =~= before.push(l[0][i as int]));
            assert(r.deep_view() =~= l[0].take(i + 1));
            i += 1;
        }
        assert(l[0].take(i as int) =~= l[0]);
        return r;
    }
    let mut k: usize = 0;
    while k < lists.len()
        invariant
            l == lists.deep_view(),
            k <= lists.len(),
            forall|j: int| 0 <= j < k ==> #[trigger] l[j].len() > 0,
        decreases lists.len() - k,
    {
        if lists[k].len() == 0 {
            proof {
                lemma_product_has_empty(l, k as int);
                lemma_cartesian_len(l);
            }
            assert(spaced_each(cartesian(l)) =~= Seq::empty());
            return Vec::new();
        }
        k += 1;
    }
    let tuples = permutations(lists);
    let ghost tv = tuples.deep_view();
    let mut r: Vec<String> = Vec::new();
    let mut i: usize = 0;
    while i < tuples.len()
        invariant
            tv == tuples.deep_view(),
            i <= tuples.len(),
            r.deep_view() == spaced_each(tv.take(i as int)),
        decreases tuples.len() - i,
    {
        let record = join_spaced(&tuples[i], 0, tuples[i].len());
        assert(tuples[i as int].deep_view().subrange(0, tuples[i as int].len() as int)
            =~= tv[i as int]);
        let ghost before = r.deep_view();
        r.push(record);
        assert(r.deep_view() =~= before.push(spaced(tv[i as int])));
        assert(r.deep_view() =~= spaced_each(tv.take(i + 1)));
        i += 1;
    }
    assert(tv.take(i as int) =~= tv);
    r
}

proof fn lemma_product_has_empty(lists: Seq<Seq<Seq<char>>>, k: int)
    requires
        0 <= k < lists.len(),
        lists[k].len() == 0,
    ensures
        product_len(lists) == 0,
    decreases k,
{
    let rest = product_len(lists.drop_first());
    if k > 0 {
        lemma_product_has_empty(lists.drop_first(), k - 1);
        let a = lists[0].len();
        assert(a * 0 == 0) by (nonlinear_arith);
    } else {
        assert(0 * rest == 0) by (nonlinear_arith);
    }
}

/// The records to spool for `lists`: their combined inputs, grouped by
/// `max_args`. Fails with `NoArguments` where that leaves no record.
pub fn spool_records(lists: &Vec<Vec<String>>, max_args: usize) -> (r: Result<Vec<String>, ParseErr>)
    requires
        product_len(lists.deep_view()) <= usize::MAX,
    ensures
        match r {
            Ok(records) => records.deep_view() == spool_of(lists.deep_view(), max_args as nat)
                && records.len() > 0,
            Err(e) => e == ParseErr::NoArguments && spool_of(lists.deep_view(), max_args as nat).len() == 0,
        },
{
    let inputs = combine_lists(lists);
    let records = group_inputs(&inputs, max_args);
    if records.len() == 0 {
        Err(ParseErr::NoArguments)
    } else {
        Ok(records)
    }
}


/// How the members of an input group reach the spool.
#[derive(Clone, Copy, Debug, PartialEq, Eq, Structural)]
pub enum ListKind {
    /// After `:::`: literal inputs that open a new list.
    Inputs,
    /// After `:::+`: literal inputs zipped into the list before.
    InputsAppend,
    /// After `::::`: files whose lines open a new list.
    Files,
    /// After `::::+`: files whose lines are zipped into the list before.
    FilesAppend,
}

impl ListKind {
    /// Whether members of this kind are zipped into the list before.
    pub open spec fn spec_appends(self) -> bool {
        self == ListKind::InputsAppend || self == ListKind::FilesAppend
    }

    /// Whether members of this kind are file names.
    pub open spec fn spec_names_files(self) -> bool {
        self == ListKind::Files || self == ListKind::FilesAppend
    }

    /// Whether members of this kind are zipped into the list before.
    #[verifier::when_used_as_spec(spec_appends)]
    pub fn appends(self) -> (r: bool)
        ensures
            r == self.spec_appends(),
    {
        match self {
            ListKind::InputsAppend | ListKind::FilesAppend => true,
            _ => false,
        }
    }

    /// Whether members of this kind are file names.
    #[verifier::when_used_as_spec(spec_names_files)]
    pub fn names_files(self) -> (r: bool)
        ensures
            r == self.spec_names_files(),
    {
        match self {
            ListKind::Files | ListKind::FilesAppend => true,
            _ => false,
        }
    }
}

/// The arguments that follow one list marker, up to the next.
pub struct InputGroup {
    pub kind: ListKind,
    pub members: Vec<String>,
}

impl View for InputGroup {
    type V = (ListKind, Seq<Seq<char>>);

    open spec fn view(&self) -> (ListKind, Seq<Seq<char>>) {
        (self.kind, self.members.deep_view())
    }
}

/// The list kind that the argument `a` marks the start of, if it is a marker.
pub open spec fn marker_of(a: Seq<char>) -> Option<ListKind> {
    if a == seq![':', ':', ':'] {
        Some(ListKind::Inputs)
    } else if a == seq![':', ':', ':', '+'] {
        Some(ListKind::InputsAppend)
    } else if a == seq![':', ':', ':', ':'] {
        Some(ListKind::Files)
    } else if a == seq![':', ':', ':', ':', '+'] {
        Some(ListKind::FilesAppend)
    } else {
        None
    }
}

/// The groups that `args` fall into when the first group has kind `first`:
/// each marker opens a new group, every other argument joins the group open.
pub open spec fn groups_of(args: Seq<Seq<char>>, first: ListKind) -> Seq<(ListKind, Seq<Seq<char>>)>
    decreases args.len(),
{
    if args.len() == 0 {
        seq![(first, Seq::empty())]
    } else {
        let prev = groups_of(args.drop_last(), first);
        match marker_of(args.last()) {
            Some(k) => prev.push((k, Seq::empty())),
            None => prev.update(prev.len() - 1, (prev.last().0, prev.last().1.push(args.last()))),
        }
    }
}

proof fn lemma_groups_nonempty(args: Seq<Seq<char>>, first: ListKind)
    ensures
        groups_of(args, first).len() >= 1,
    decreases args.len(),
{
    if args.len() > 0 {
        lemma_groups_nonempty(args.drop_last(), first);
    }
}

/// The list marker that `a` is, if any.
pub fn list_marker(a: &str) -> (r: Option<ListKind>)
    ensures
        r == marker_of(a@),
{
    let c = chars_of(a);
    if c.len() < 3 || c.len() > 5 || c[0] != ':' || c[1] != ':' || c[2] != ':' {
        return None;
    }
    proof {
        if c.len() == 3 { assert(a@ =~= seq![':', ':', ':']); }
    }
    if c.len() == 3 {
        return Some(ListKind::Inputs);
    }
    if c.len() == 4 {
        if c[3] == '+' {
            assert(a@ =~= seq![':', ':', ':', '+']);
            return Some(ListKind::InputsAppend);
        } else if c[3] == ':' {
            assert(a@ =~= seq![':', ':', ':', ':']);
            return Some(ListKind::Files);
        }
        assert(a@ != seq![':', ':', ':', '+'] && a@ != seq![':', ':', ':', ':'] && a@
            != seq![':', ':', ':']) by {
            assert(a@[3] != seq![':', ':', ':', '+'][3]);
            assert(a@[3] != seq![':', ':', ':', ':'][3]);
        }
        return None;
    }
    if c[3] == ':' && c[4] == '+' {
        assert(a@ =~= seq![':', ':', ':', ':', '+']);
        return Some(ListKind::FilesAppend);
    }
    assert(a@ != seq![':', ':', ':', ':', '+']) by {
        if c[3] != ':' {
            assert(a@[3] != seq![':', ':', ':', ':', '+'][3]);
        } else {
            assert(a@[4] != seq![':', ':', ':', ':', '+'][4]);
        }
    }
    None
}

/// The view of each group of `gs`.
pub open spec fn groups_view(gs: Seq<InputGroup>) -> Seq<(ListKind, Seq<Seq<char>>)> {
    gs.map_values(|g: InputGroup| g@)
}

/// The arguments from `index` on; none where `index` is past the end.
pub open spec fn from_index(args: Seq<Seq<char>>, index: int) -> Seq<Seq<char>> {
    if index <= args.len() {
        args.subrange(index, args.len() as int)
    } else {
        Seq::empty()
    }
}

/// Splits `arguments[index..]` into groups at the list markers; the first
/// group has kind `first`.
pub fn split_groups(arguments: &Vec<String>, index: usize, first: ListKind) -> (r: Vec<InputGroup>)
    ensures
        groups_view(r@) == groups_of(from_index(arguments.deep_view(), index as int), first),
{
    let ghost args = arguments.deep_view();
    let start = if index <= arguments.len() { index } else { arguments.len() };
    let mut done: Vec<InputGroup> = Vec::new();
    let mut kind = first;
    let mut members: Vec<String> = Vec::new();
    let mut i = start;
    proof {
        assert(args.subrange(start as int, start as int) =~= Seq::<Seq<char>>::empty());
        assert(groups_view(done@) =~= Seq::empty());
        assert(members.deep_view() =~= Seq::empty());
    }
    while i < arguments.len()
        invariant
            args == arguments.deep_view(),
            start <= i <= arguments.len(),
            groups_view(done@).push((kind, members.deep_view())) == groups_of(
                args.subrange(start as int, i as int),
                first,
            ),
        decreases arguments.len() - i,
    {
        let ghost seen = args.subrange(start as int, i as int);
        let ghost prev = groups_of(seen, first);
        assert(args.subrange(start as int, i + 1).drop_last() =~= seen);
        assert(args.subrange(start as int, i + 1).last() == args[i as int]);
        match list_marker(arguments[i].as_str()) {
            Some(k) => {
                let ghost before = groups_view(done@);
                let group = InputGroup { kind, members };
                done.push(group);
                assert(groups_view(done@) =~= before.push((kind, members.deep_view())));
                kind = k;
                members = Vec::new();
                assert(members.deep_view() =~= Seq::empty());
                assert(groups_view(done@).push((kind, members.deep_view())) =~= prev.push(
                    (k, Seq::empty()),
                ));
            },
            None => {
                let ghost before = members.deep_view();
                members.push(arguments[i].clone());
                assert(members.deep_view() =~= before.push(args[i as int]));
                assert(groups_view(done@).push((kind, members.deep_view())) =~= prev.update(
                    prev.len() - 1,
                    (prev.last().0, prev.last().1.push(args[i as int])),
                ));
            },
        }
        i += 1;
    }
    let ghost before = groups_view(done@);
    let group = InputGroup { kind, members };
    done.push(group);
    assert(groups_view(done@) =~= before.push(group@));
    done
}


/// The quoting state after reading `s`: inside single quotes, inside double
/// quotes, and whether the last character was an unescaped backslash.
pub open spec fn quote_scan(s: Seq<char>) -> (bool, bool, bool)
    decreases s.len(),
{
    if s.len() == 0 {
        (false, false, false)
    } else {
        let (single, double, back) = quote_scan(s.drop_last());
        let c = s.last();
        if back {
            (single, double, false)
        } else if c == '\\' {
            (single, double, true)
        } else if c == '"' {
            (single, !double, false)
        } else if c == '\'' {
            (!single, double, false)
        } else {
            (single, double, false)
        }
    }
}

/// Whether `s` leaves a single or double quote open.
pub open spec fn unterminated(s: Seq<char>) -> bool {
    quote_scan(s).0 || quote_scan(s).1
}

/// Ensures that every quote that the command opens is closed: fails with
/// `NonTerminated` holding the command where one is left open.
pub fn check_command(input: &str) -> (r: Result<(), ParseErr>)
    ensures
        match r {
            Ok(()) => !unterminated(input@),
            Err(ParseErr::NonTerminated(t)) => unterminated(input@) && t@ == input@,
            Err(_) => false,
        },
{
    let c = chars_of(input);
    let mut single = false;
    let mut double = false;
    let mut back = false;
    let mut i: usize = 0;
    while i < c.len()
        invariant
            c@ == input@,
            i <= c.len(),
            (single, double, back) == quote_scan(c@.take(i as int)),
        decreases c.len() - i,
    {
        assert(c@.take(i + 1).drop_last() =~= c@.take(i as int));
        let ch = c[i];
        if back {
            back = false;
        } else if ch == '\\' {
            back = true;
        } else if ch == '"' {
            double = !double;
        } else if ch == '\'' {
            single = !single;
        }
        i += 1;
    }
    assert(c@.take(i as int) =~= input@);
    if single || double {
        Err(ParseErr::NonTerminated(input.to_owned()))
    } else {
        Ok(())
    }
}

/// Whether `c` is escaped with a backslash when inputs are quoted.
pub open spec fn quoted_char(c: char) -> bool {
    c == '"' || c == '\\' || c == '\'' || c == ' '
}

/// `s` with a backslash put before each character that [`quoted_char`] names.
pub open spec fn escaped(s: Seq<char>) -> Seq<char>
    decreases s.len(),
{
    if s.len() == 0 {
        Seq::empty()
    } else if quoted_char(s.last()) {
        escaped(s.drop_last()) + seq!['\\', s.last()]
    } else {
        escaped(s.drop_last()).push(s.last())
    }
}

/// `s` with everything after its first space escaped as [`escaped`] says;
/// unchanged where it has no space.
pub open spec fn command_quoted(s: Seq<char>) -> Seq<char> {
    let k = first_index(s, ' ') as int;
    if k < s.len() {
        s.take(k + 1 as int) + escaped(s.skip(k + 1 as int))
    } else {
        s
    }
}

/// Appends `v[from..]` to `out`, escaped as [`escaped`] says.
fn push_escaped(out: &mut String, v: &Vec<char>, from: usize)
    requires
        from <= v.len(),
    ensures
        final(out)@ == old(out)@ + escaped(v@.skip(from as int)),
{
    let mut i = from;
    assert(v@.subrange(from as int, from as int) =~= Seq::<char>::empty());
    while i < v.len()
        invariant
            from <= i <= v.len(),
            out@ == old(out)@ + escaped(v@.subrange(from as int, i as int)),
        decreases v.len() - i,
    {
        assert(v@.subrange(from as int, i + 1).drop_last() =~= v@.subrange(from as int, i as int));
        let c = v[i];
        if c == '"' || c == '\\' || c == '\'' || c == ' ' {
            push_char(out, '\\');
        }
        push_char(out, c);
        i += 1;
    }
    assert(v@.subrange(from as int, i as int) =~= v@.skip(from as int));
}

/// Escapes spaces, backslashes and quotes with a backslash.
pub fn quote_inputs(input: &str) -> (r: String)
    ensures
        r@ == escaped(input@),
{
    let v = chars_of(input);
    let mut out = String::new();
    push_escaped(&mut out, &v, 0);
    assert(v@.skip(0) =~= v@);
    out
}

/// Escapes as [`quote_inputs`] does, but leaves the first word, and the
/// space after it, as they are.
pub fn quote_command(input: &str) -> (r: String)
    ensures
        r@ == command_quoted(input@),
{
    let v = chars_of(input);
    let k = find_from(&v, 0, ' ');
    assert(v@.skip(0) =~= v@);
    proof {
        crate::text::lemma_first_index(v@, ' ');
    }
    assert(v@ == input@);
    if k == v.len() {
        return input.to_owned();
    }
    let mut out = String::new();
    crate::text::push_range(&mut out, &v, 0, k + 1);
    assert(v@.subrange(0, k + 1) =~= v@.take(k + 1));
    push_escaped(&mut out, &v, k + 1);
    out
}


/// The members of `original` each joined by a space with the member of
/// `append` at the same position, as far as both reach.
pub open spec fn zip_spaced(original: Seq<Seq<char>>, append: Seq<Seq<char>>) -> Seq<Seq<char>> {
    let n = if original.len() <= append.len() { original.len() } else { append.len() };
    Seq::new(n, |i: int| original[i] + seq![' '] + append[i])
}

/// Merges `append` into `original` element by element, a space between the
/// two, and empties `append`. Members of `original` that have no partner are
/// dropped.
pub fn merge_lists(original: &mut Vec<String>, append: &mut Vec<String>)
    ensures
        final(original).deep_view() == zip_spaced(old(original).deep_view(), old(append).deep_view()),
        final(append)@.len() == 0,
{
    let ghost o = original.deep_view();
    let ghost a = append.deep_view();
    let n = if original.len() <= append.len() { original.len() } else { append.len() };
    let mut merged: Vec<String> = Vec::new();
    let mut i: usize = 0;
    while i < n
        invariant
            o == original.deep_view(),
            a == append.deep_view(),
            n <= original.len(),
            n <= append.len(),
            i <= n,
            merged.deep_view() == zip_spaced(o, a).take(i as int),
        decreases n - i,
    {
        let mut item = original[i].clone();
        push_char(&mut item, ' ');
        push_text(&mut item, append[i].as_str());
        let ghost before = merged.deep_view();
        let ghost iv = item@;
        assert(iv =~= zip_spaced(o, a)[i as int]);
        merged.push(item);
        assert(merged.deep_view() =~= before.push(iv));
        assert(merged.deep_view() =~= zip_spaced(o, a).take(i + 1));
        i += 1;
    }
    assert(zip_spaced(o, a).take(n as int) =~= zip_spaced(o, a));
    *original = merged;
    append.clear();
}

/// The lists finished so far, and the list still open, after `groups`.
pub open spec fn merged(groups: Seq<(ListKind, Seq<Seq<char>>)>) -> (Seq<Seq<Seq<char>>>, Seq<Seq<char>>)
    decreases groups.len(),
{
    if groups.len() == 0 {
        (Seq::empty(), Seq::empty())
    } else {
        let (lists, open) = merged(groups.drop_last());
        let (kind, members) = groups.last();
        if kind.spec_appends() {
            (lists, zip_spaced(open, members))
        } else {
            (if open.len() > 0 { lists.push(open) } else { lists }, members)
        }
    }
}

/// The nonempty input lists that `groups` make: a group that opens a list
/// starts a new one, a group that appends is zipped into the one open.
pub open spec fn lists_of(groups: Seq<(ListKind, Seq<Seq<char>>)>) -> Seq<Seq<Seq<char>>> {
    let (lists, open) = merged(groups);
    if open.len() > 0 {
        lists.push(open)
    } else {
        lists
    }
}

/// `members`, each quoted as a command when `quote` holds.
pub open spec fn quoted_members(members: Seq<Seq<char>>, quote: bool) -> Seq<Seq<char>> {
    if quote {
        members.map_values(|m: Seq<char>| command_quoted(m))
    } else {
        members
    }
}

/// `groups` with their members quoted as commands when `quote` holds.
pub open spec fn quoted_groups(groups: Seq<(ListKind, Seq<Seq<char>>)>, quote: bool) -> Seq<
    (ListKind, Seq<Seq<char>>),
> {
    groups.map_values(|g: (ListKind, Seq<Seq<char>>)| (g.0, quoted_members(g.1, quote)))
}

/// The members of `members`, each quoted as a command when `quote` holds.
fn quote_members(members: &Vec<String>, quote: bool) -> (r: Vec<String>)
    ensures
        r.deep_view() == quoted_members(members.deep_view(), quote),
{
    let ghost m = members.deep_view();
    let mut r: Vec<String> = Vec::new();
    let mut i: usize = 0;
    while i < members.len()
        invariant
            m == members.deep_view(),
            i <= members.len(),
            r.deep_view() == quoted_members(m, quote).take(i as int),
        decreases members.len() - i,
    {
        let item = if quote { quote_command(members[i].as_str()) } else { members[i].clone() };
        let ghost before = r.deep_view();
        let ghost iv = item@;
        assert(iv == quoted_members(m, quote)[i as int]);
        r.push(item);
        assert(r.deep_view() =~= before.push(iv));
        assert(r.deep_view() =~= quoted_members(m, quote).take(i + 1));
        i += 1;
    }
    assert(quoted_members(m, quote).take(i as int) =~= quoted_members(m, quote));
    r
}

/// Builds the input lists from `groups`, whose members are inputs (the
/// lines of the files, for groups that named files). With `quote`, each
/// input is quoted as a command first.
pub fn parse_inputs(groups: &Vec<InputGroup>, quote: bool) -> (r: Vec<Vec<String>>)
    ensures
        r.deep_view() == lists_of(quoted_groups(groups_view(groups@), quote)),
{
    let ghost g = quoted_groups(groups_view(groups@), quote);
    let mut lists: Vec<Vec<String>> = Vec::new();
    let mut current: Vec<String> = Vec::new();
    let mut i: usize = 0;
    assert(g.take(0) =~= Seq::empty());
    while i < groups.len()
        invariant
            g == quoted_groups(groups_view(groups@), quote),
            i <= groups.len(),
            (lists.deep_view(), current.deep_view()) == merged(g.take(i as int)),
        decreases groups.len() - i,
    {
        assert(g.take(i + 1).drop_last() =~= g.take(i as int));
        assert(g.take(i + 1).last() == g[i as int]);
        let mut members = quote_members(&groups[i].members, quote);
        if groups[i].kind.appends() {
            merge_lists(&mut current, &mut members);
        } else {
            if current.len() > 0 {
                let ghost before = lists.deep_view();
                let ghost cur = current.deep_view();
                lists.push(current);
                assert(lists.deep_view() =~= before.push(cur));
            }
            current = members;
        }
        i += 1;
    }
    assert(g.take(i as int) =~= g);
    if current.len() > 0 {
        let ghost before = lists.deep_view();
        let ghost cur = current.deep_view();
        lists.push(current);
        assert(lists.deep_view() =~= before.push(cur));
    }
    lists
}

/// Whether a line read from an input file is an input: it is not empty and
/// does not start with `#`.
pub fn keep_file_line(line: &str) -> (r: bool)
    ensures
        r == (line@.len() > 0 && line@[0] != '#'),
{
    let c = chars_of(line);
    c.len() > 0 && c[0] != '#'
}


/// `s` without a leading `+`.
pub open spec fn unsigned_digits(s: Seq<char>) -> Seq<char> {
    if s.len() > 0 && s[0] == '+' {
        s.drop_first()
    } else {
        s
    }
}

/// The value of `s` read as an unsigned decimal with an optional leading
/// `+`, or `None` where it is not one.
pub open spec fn unsigned_value(s: Seq<char>) -> Option<nat> {
    if all_digits(unsigned_digits(s)) {
        Some(digits_value(unsigned_digits(s)))
    } else {
        None
    }
}

proof fn lemma_digits_value_grows(s: Seq<char>, k: int)
    requires
        0 <= k <= s.len(),
    ensures
        digits_value(s) >= digits_value(s.take(k)),
    decreases s.len(),
{
    if k < s.len() {
        lemma_digits_value_grows(s.drop_last(), k);
        assert(s.drop_last().take(k) =~= s.take(k));
    } else {
        assert(s.take(k) =~= s);
    }
}

/// The value of the digits `v[from..to]`, or `None` where they are not a
/// nonempty run of digits or their value does not fit in a `u64`.
pub fn digits_u64(v: &Vec<char>, from: usize, to: usize) -> (r: Option<u64>)
    requires
        from <= to <= v.len(),
    ensures
        match r {
            Some(n) => all_digits(v@.subrange(from as int, to as int))
                && n == digits_value(v@.subrange(from as int, to as int)),
            None => !all_digits(v@.subrange(from as int, to as int))
                || digits_value(v@.subrange(from as int, to as int)) > u64::MAX,
        },
{
    let ghost whole = v@.subrange(from as int, to as int);
    if from == to {
        return None;
    }
    let mut acc: u64 = 0;
    let mut i = from;
    assert(v@.subrange(from as int, from as int) =~= Seq::<char>::empty());
    while i < to
        invariant
            from <= i <= to <= v.len(),
            whole == v@.subrange(from as int, to as int),
            forall|k: int| from <= k < i ==> is_digit(#[trigger] v@[k]),
            acc == digits_value(v@.subrange(from as int, i as int)),
        decreases to - i,
    {
        let c = v[i];
        if !('0' <= c && c <= '9') {
            assert(!is_digit(whole[i - from]));
            return None;
        }
        let d = (c as u32 - '0' as u32) as u64;
        assert(v@.subrange(from as int, i + 1).drop_last() =~= v@.subrange(from as int, i as int));
        assert(d == digit_value(c));
        if acc > (u64::MAX - d) / 10 {
            proof {
                assert(acc * 10 + d > u64::MAX) by (nonlinear_arith)
                    requires acc > (u64::MAX - d) / 10, d <= 9;
                assert(whole.take(i + 1 - from) =~= v@.subrange(from as int, i + 1));
                lemma_digits_value_grows(whole, i + 1 - from);
            }
            return None;
        }
        assert(acc * 10 + d <= u64::MAX) by (nonlinear_arith)
            requires acc <= (u64::MAX - d) / 10, d <= 9;
        acc = acc * 10 + d;
        i += 1;
    }
    assert(all_digits(whole)) by {
        assert forall|k: int| 0 <= k < whole.len() implies is_digit(#[trigger] whole[k]) by {
            assert(whole[k] == v@[from + k]);
        }
    }
    Some(acc)
}

/// Reads `v[from..to]` as an unsigned decimal with an optional leading `+`.
fn unsigned_u64(v: &Vec<char>, from: usize, to: usize) -> (r: Option<u64>)
    requires
        from <= to <= v.len(),
    ensures
        match r {
            Some(n) => unsigned_value(v@.subrange(from as int, to as int)) == Some(n as nat),
            None => unsigned_value(v@.subrange(from as int, to as int)) is None
                || unsigned_value(v@.subrange(from as int, to as int))->0 > u64::MAX,
        },
{
    let ghost s = v@.subrange(from as int, to as int);
    if from < to && v[from] == '+' {
        assert(s.drop_first() =~= v@.subrange(from + 1, to as int));
        digits_u64(v, from + 1, to)
    } else {
        digits_u64(v, from, to)
    }
}

/// Reads `s` as an unsigned decimal, with an optional leading `+`, that
/// fits in a `usize`.
pub fn parse_usize(s: &str) -> (r: Option<usize>)
    ensures
        match r {
            Some(n) => unsigned_value(s@) == Some(n as nat),
            None => unsigned_value(s@) is None || unsigned_value(s@)->0 > usize::MAX,
        },
{
    let v = chars_of(s);
    assert(v@.subrange(0, v@.len() as int) =~= s@);
    match unsigned_u64(&v, 0, v.len()) {
        Some(n) => {
            if n > usize::MAX as u64 {
                None
            } else {
                Some(n as usize)
            }
        },
        None => None,
    }
}

/// Parses the `max_args` value, `-n3` or `-n 3`, and steps `index` past the
/// value where it is the next argument.
pub fn parse_max_args(argument: &str, next_argument: Option<&String>, index: &mut usize) -> (r: Result<usize, ParseErr>)
    requires
        argument@.len() >= 2,
        next_argument is None || *old(index) < usize::MAX,
    ensures
        argument@.len() > 2 ==> *final(index) == *old(index) && match unsigned_value(argument@.skip(2)) {
            Some(n) if n <= usize::MAX => r == Ok::<usize, ParseErr>(n as usize),
            _ => r == Err::<usize, ParseErr>(ParseErr::MaxArgsNaN(*old(index))),
        },
        argument@.len() == 2 ==> match next_argument {
            None => r == Err::<usize, ParseErr>(ParseErr::MaxArgsNoValue),
            Some(a) => *final(index) == *old(index) + 1 && match unsigned_value(a@) {
                Some(n) if n <= usize::MAX => r == Ok::<usize, ParseErr>(n as usize),
                _ => r == Err::<usize, ParseErr>(ParseErr::MaxArgsNaN(*final(index))),
            },
        },
{
    let v = chars_of(argument);
    if v.len() > 2 {
        assert(v@.subrange(2, v@.len() as int) =~= argument@.skip(2));
        match unsigned_u64(&v, 2, v.len()) {
            Some(n) if n <= usize::MAX as u64 => Ok(n as usize),
            _ => Err(ParseErr::MaxArgsNaN(*index)),
        }
    } else {
        match next_argument {
            None => Err(ParseErr::MaxArgsNoValue),
            Some(a) => {
                *index += 1;
                match parse_usize(a.as_str()) {
                    Some(n) => Ok(n),
                    None => Err(ParseErr::MaxArgsNaN(*index)),
                }
            },
        }
    }
}

/// The multiplier of a `--mem-free` unit suffix, or zero where `c` is none.
pub open spec fn unit_of(c: char) -> nat {
    if c == 'k' { 1_000 }
    else if c == 'K' { 1_024 }
    else if c == 'm' { 1_000_000 }
    else if c == 'M' { 1_048_576 }
    else if c == 'g' { 1_000_000_000 }
    else if c == 'G' { 1_073_741_824 }
    else if c == 't' { 1_000_000_000_000 }
    else if c == 'T' { 1_099_511_627_776 }
    else if c == 'p' { 1_000_000_000_000_000 }
    else if c == 'P' { 1_125_899_906_842_624 }
    else { 0 }
}

/// The byte count that a `--mem-free` value stands for: a number with an
/// optional unit suffix.
pub open spec fn memory_value(s: Seq<char>) -> Option<nat> {
    if s.len() == 0 {
        None
    } else if unit_of(s.last()) > 0 {
        match unsigned_value(s.drop_last()) {
            Some(n) => Some(n * unit_of(s.last())),
            None => None,
        }
    } else {
        unsigned_value(s)
    }
}

/// The multiplier of the unit suffix `c`, or zero where it is none.
fn unit_multiplier(c: char) -> (r: u64)
    ensures
        r == unit_of(c),
{
    match c {
        'k' => 1_000,
        'K' => 1_024,
        'm' => 1_000_000,
        'M' => 1_048_576,
        'g' => 1_000_000_000,
        'G' => 1_073_741_824,
        't' => 1_000_000_000_000,
        'T' => 1_099_511_627_776,
        'p' => 1_000_000_000_000_000,
        'P' => 1_125_899_906_842_624,
        _ => 0,
    }
}

/// Parses a `--mem-free` value: an integer with an optional unit suffix
/// (`k`, `m`, `g`, `t`, `p` for powers of 1000; `K`, `M`, `G`, `T`, `P` for
/// powers of 1024). `None` where the text is no such value or the byte count
/// does not fit in a `u64`.
pub fn parse_memory(input: &str) -> (r: Option<u64>)
    ensures
        match r {
            Some(n) => memory_value(input@) == Some(n as nat),
            None => memory_value(input@) is None || memory_value(input@)->0 > u64::MAX,
        },
{
    let v = chars_of(input);
    if v.len() == 0 {
        return None;
    }
    let unit = unit_multiplier(v[v.len() - 1]);
    if unit == 0 {
        assert(v@.subrange(0, v@.len() as int) =~= input@);
        return unsigned_u64(&v, 0, v.len());
    }
    assert(v@.subrange(0, v.len() - 1) =~= input@.drop_last());
    match unsigned_u64(&v, 0, v.len() - 1) {
        Some(n) => {
            let m = n.checked_mul(unit);
            m
        },
        None => {
            proof {
                let s = input@.drop_last();
                if unsigned_value(s) is Some {
                    let x = unsigned_value(s)->0;
                    assert(x * unit >= x) by (nonlinear_arith)
                        requires unit >= 1;
                }
            }
            None
        },
    }
}


/// `n`, or one where `n` is zero.
pub open spec fn at_least_one(n: int) -> nat {
    if n < 1 { 1 } else { n as nat }
}

/// The job count that a `--jobs` value asks for on a machine with `cores`
/// cores: `N` absolute, `Nx` a multiple of the cores, `P%` a percentage of
/// them, `+N` and `-N` relative to them; at least one. `None` where the
/// text is none of these.
pub open spec fn jobs_of(s: Seq<char>, cores: nat) -> Option<nat> {
    if s.len() == 0 {
        None
    } else if s.last() == '%' {
        match word_value(s.drop_last()) {
            Some(p) => Some(at_least_one((cores * p / 100) as int)),
            None => None,
        }
    } else if s.last() == 'x' {
        match word_value(s.drop_last()) {
            Some(n) => Some(at_least_one((n * cores) as int)),
            None => None,
        }
    } else if s[0] == '+' {
        if all_digits(s.drop_first()) && digits_value(s.drop_first()) <= u64::MAX {
            Some(at_least_one(cores + digits_value(s.drop_first()) as int))
        } else {
            None
        }
    } else if s[0] == '-' {
        if all_digits(s.drop_first()) && digits_value(s.drop_first()) <= u64::MAX {
            Some(at_least_one(cores as int - digits_value(s.drop_first()) as int))
        } else {
            None
        }
    } else {
        match word_value(s) {
            Some(n) => Some(at_least_one(n as int)),
            None => None,
        }
    }
}

/// The value of `s` read as an unsigned decimal, as [`unsigned_value`]
/// says, where it fits in a `u64`.
pub open spec fn word_value(s: Seq<char>) -> Option<nat> {
    match unsigned_value(s) {
        Some(n) if n <= u64::MAX => Some(n),
        _ => None,
    }
}

/// What parsing `s` as a `--jobs` value on `cores` cores gives.
pub open spec fn jobs_result(s: Seq<char>, cores: nat) -> Result<usize, Seq<char>> {
    match jobs_of(s, cores) {
        Some(n) if n <= usize::MAX => Ok(n as usize),
        _ => Err(s),
    }
}

/// Whether `r` is what parsing `s` as a `--jobs` value on `cores` cores gives.
pub open spec fn jobs_outcome(r: Result<usize, ParseErr>, s: Seq<char>, cores: nat) -> bool {
    match jobs_result(s, cores) {
        Ok(n) => r == Ok::<usize, ParseErr>(n),
        Err(_) => match r {
            Err(ParseErr::JobsNaN(t)) => t@ == s,
            _ => false,
        },
    }
}

/// Relies on `num_cpus::get`: the number of usable cores, at least one.
#[verifier::external_body]
fn cpu_count() -> (r: usize)
    ensures
        r >= 1,
{
    num_cpus::get()
}

/// The job count `a`, at least one, or `JobsNaN` holding `value` where it
/// does not fit in a `usize`.
fn clamp_jobs(a: u128, value: &str) -> (r: Result<usize, ParseErr>)
    ensures
        at_least_one(a as int) <= usize::MAX ==> r == Ok::<usize, ParseErr>(at_least_one(a as int) as usize),
        at_least_one(a as int) > usize::MAX ==> match r {
            Err(ParseErr::JobsNaN(t)) => t@ == value@,
            _ => false,
        },
{
    let c: u128 = if a < 1 { 1 } else { a };
    if c > usize::MAX as u128 {
        Err(ParseErr::JobsNaN(value.to_owned()))
    } else {
        Ok(c as usize)
    }
}

/// Parses a `--jobs` value for a machine with `ncores` cores; fails with
/// `JobsNaN` holding the value where it is not one.
pub fn jobs_from(value: &str, ncores: usize) -> (r: Result<usize, ParseErr>)
    ensures
        jobs_outcome(r, value@, ncores as nat),
{
    let v = chars_of(value);
    let n = v.len();
    let ghost s = value@;
    if n == 0 {
        return Err(ParseErr::JobsNaN(value.to_owned()));
    }
    let last = v[n - 1];
    let first = v[0];
    if last == '%' || last == 'x' {
        assert(v@.subrange(0, n - 1) =~= s.drop_last());
        match unsigned_u64(&v, 0, n - 1) {
            Some(x) => {
                assert((x as int) * (ncores as int) <= u64::MAX * u64::MAX) by (nonlinear_arith)
                    requires x <= u64::MAX, ncores <= u64::MAX;
                let prod = (x as u128) * (ncores as u128);
                assert(prod == ncores * x) by (nonlinear_arith)
                    requires prod == x * ncores;
                if last == '%' {
                    clamp_jobs(prod / 100, value)
                } else {
                    clamp_jobs(prod, value)
                }
            },
            None => Err(ParseErr::JobsNaN(value.to_owned())),
        }
    } else if first == '+' || first == '-' {
        assert(v@.subrange(1, n as int) =~= s.drop_first());
        match digits_u64(&v, 1, n) {
            Some(x) => {
                if first == '+' {
                    clamp_jobs(ncores as u128 + x as u128, value)
                } else if (x as u128) >= ncores as u128 {
                    clamp_jobs(0, value)
                } else {
                    clamp_jobs(ncores as u128 - x as u128, value)
                }
            },
            None => Err(ParseErr::JobsNaN(value.to_owned())),
        }
    } else {
        assert(v@.subrange(0, n as int) =~= s);
        match unsigned_u64(&v, 0, n) {
            Some(x) => clamp_jobs(x as u128, value),
            None => Err(ParseErr::JobsNaN(value.to_owned())),
        }
    }
}

/// Parses the jobs value, `-j4` or `-j 4`, for the cores of this machine,
/// and steps `index` past the value where it is the next argument.
pub fn parse_jobs(argument: &str, next_argument: Option<&String>, index: &mut usize) -> (r: Result<usize, ParseErr>)
    requires
        argument@.len() >= 2,
        next_argument is None || *old(index) < usize::MAX,
    ensures
        argument@.len() > 2 ==> *final(index) == *old(index) && exists|c: nat| c >= 1
            && jobs_outcome(r, argument@.skip(2), c),
        argument@.len() == 2 ==> match next_argument {
            None => r == Err::<usize, ParseErr>(ParseErr::JobsNoValue),
            Some(a) => *final(index) == *old(index) + 1 && exists|c: nat| c >= 1
                && jobs_outcome(r, a@, c),
        },
{
    let v = chars_of(argument);
    if v.len() > 2 {
        let value = crate::text::string_of_range(&v, 2, v.len());
        assert(v@.subrange(2, v@.len() as int) =~= argument@.skip(2));
        let cores = cpu_count();
        jobs_from(value.as_str(), cores)
    } else {
        match next_argument {
            None => Err(ParseErr::JobsNoValue),
            Some(a) => {
                *index += 1;
                let cores = cpu_count();
                jobs_from(a.as_str(), cores)
            },
        }
    }
}

} // verus!
