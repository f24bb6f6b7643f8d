//! Rule stacks: looping sequences of rules, edited with undo and redo.
use vstd::prelude::*;

use crate::rule::BsRule;

verus! {

/// One segment of a rule stack: run `rule` for `generations` steps.
/// `None` means run forever: the stack stops there and never loops back.
#[derive(Debug, PartialEq)]
pub struct StackEntry {
    pub name: String,
    pub rule: BsRule,
    pub generations: Option<u32>,
}

impl Clone for StackEntry {
    fn clone(&self) -> (r: Self)
        ensures
            r == *self,
    {
        StackEntry { name: self.name.clone(), rule: self.rule, generations: self.generations }
    }
}

/// A looping sequence of rules. Plain data, no UI state.
#[derive(Debug, PartialEq)]
pub struct RuleStack {
    pub entries: Vec<StackEntry>,
}

impl Clone for RuleStack {
    fn clone(&self) -> (r: Self)
        ensures
            r.entries@ == self.entries@,
    {
        let r = RuleStack { entries: self.entries.clone() };
        assert(r.entries@ =~= self.entries@);
        r
    }
}

impl Default for RuleStack {
    fn default() -> (r: Self)
        ensures
            r.entries@ == Seq::<StackEntry>::empty(),
    {
        RuleStack { entries: Vec::new() }
    }
}

/// How many generations an entry runs; what runs forever adds nothing.
pub open spec fn span(entry: StackEntry) -> int {
    match entry.generations {
        Some(n) => n as int,
        None => 0,
    }
}

/// The generation at which the `k`-th entry starts.
pub open spec fn start(entries: Seq<StackEntry>, k: int) -> int
    decreases k,
{
    if k <= 0 {
        0
    } else {
        start(entries, k - 1) + span(entries[k - 1])
    }
}

/// How many generations one pass through the stack takes.
pub open spec fn total_span(entries: Seq<StackEntry>) -> int {
    start(entries, entries.len() as int)
}

/// Some entry runs forever.
pub open spec fn has_infinite(entries: Seq<StackEntry>) -> bool {
    exists|i: int| 0 <= i < entries.len() && (#[trigger] entries[i]).generations is None
}

/// Where a generation falls in the pass through the stack that it belongs to.
pub open spec fn offset_of(entries: Seq<StackEntry>, generation: int) -> int {
    if has_infinite(entries) {
        generation
    } else {
        generation % total_span(entries)
    }
}

/// The stack has an entry for every generation.
pub open spec fn is_active(entries: Seq<StackEntry>) -> bool {
    entries.len() > 0 && (has_infinite(entries) || total_span(entries) != 0)
}

/// The `i`-th entry is the one that runs at the given generation.
pub open spec fn runs_at(entries: Seq<StackEntry>, generation: int, i: int) -> bool {
    &&& 0 <= i < entries.len()
    &&& forall|j: int| 0 <= j < i ==> (#[trigger] entries[j]).generations is Some
    &&& start(entries, i) <= offset_of(entries, generation)
    &&& entries[i].generations is Some ==> offset_of(entries, generation) < start(entries, i + 1)
}

proof fn lemma_start_monotonic(entries: Seq<StackEntry>, a: int, b: int)
    requires
        0 <= a <= b,
    ensures
        0 <= start(entries, a) <= start(entries, b),
    decreases b,
{
    if b > 0 {
        if a < b {
            lemma_start_monotonic(entries, a, b - 1);
        } else {
            lemma_start_monotonic(entries, a - 1, b - 1);
        }
    }
}

impl RuleStack {
    pub fn is_empty(&self) -> (r: bool)
        ensures
            r == (self.entries@.len() == 0),
    {
        self.entries.is_empty()
    }

    /// Whether the length of a pass can be counted, where no entry runs forever.
    pub fn is_countable(&self) -> (r: bool)
        ensures
            r == (!has_infinite(self.entries@) ==> total_span(self.entries@) <= u64::MAX),
    {
        let mut k: usize = 0;
        while k < self.entries.len()
            invariant
                k <= self.entries@.len(),
                forall|j: int|
                    0 <= j < k ==> (#[trigger] self.entries@[j]).generations is Some,
            decreases self.entries@.len() - k,
        {
            if self.entries[k].generations.is_none() {
                return true;
            }
            k = k + 1;
        }
        assert(!has_infinite(self.entries@));
        let mut total: u64 = 0;
        let mut i: usize = 0;
        while i < self.entries.len()
            invariant
                i <= self.entries@.len(),
                total == start(self.entries@, i as int),
                !has_infinite(self.entries@),
            decreases self.entries@.len() - i,
        {
            proof {
                lemma_start_monotonic(self.entries@, i + 1, self.entries@.len() as int);
            }
            let span: u64 = match self.entries[i].generations {
                Some(n) => n as u64,
                None => 0,
            };
            match total.checked_add(span) {
                Some(sum) => {
                    total = sum;
                },
                None => {
                    return false;
                },
            }
            i = i + 1;
        }
        true
    }

    /// Whether some entry runs forever, and otherwise how long a pass takes.
    fn measure(&self) -> (r: Option<u64>)
        requires
            !has_infinite(self.entries@) ==> total_span(self.entries@) <= u64::MAX,
        ensures
            match r {
                None => has_infinite(self.entries@),
                Some(total) => !has_infinite(self.entries@) && total == total_span(self.entries@),
            },
    {
        let mut k: usize = 0;
        while k < self.entries.len()
            invariant
                k <= self.entries@.len(),
                forall|j: int|
                    0 <= j < k ==> (#[trigger] self.entries@[j]).generations is Some,
            decreases self.entries@.len() - k,
        {
            if self.entries[k].generations.is_none() {
                return None;
            }
            k = k + 1;
        }
        assert(!has_infinite(self.entries@));
        let mut total: u64 = 0;
        let mut i: usize = 0;
        while i < self.entries.len()
            invariant
                i <= self.entries@.len(),
                total == start(self.entries@, i as int),
                total_span(self.entries@) <= u64::MAX,
            decreases self.entries@.len() - i,
        {
            proof {
                lemma_start_monotonic(self.entries@, i + 1, self.entries@.len() as int);
            }
            total = total + match self.entries[i].generations {
                Some(n) => n as u64,
                None => 0,
            };
            i = i + 1;
        }
        Some(total)
    }

    /// Which entry is active at the given generation. The stack loops after
    /// the last segment finishes, unless it hits an infinite entry, which
    /// absorbs every generation from its start onward.
    pub fn entry_at(&self, generation: u64) -> (r: Option<(usize, &StackEntry)>)
        requires
            !has_infinite(self.entries@) ==> total_span(self.entries@) <= u64::MAX,
        ensures
            match r {
                None => !is_active(self.entries@),
                Some((index, entry)) => is_active(self.entries@) && runs_at(
                    self.entries@,
                    generation as int,
                    index as int,
                ) && *entry == self.entries@[index as int],
            },
    {
        if self.entries.is_empty() {
            return None;
        }
        let ghost entries = self.entries@;
        let ghost offset_at_start = offset_of(entries, generation as int);
        let mut offset: u64 = match self.measure() {
            None => generation,
            Some(total) => {
                if total == 0 {
                    return None;
                }
                generation % total
            },
        };
        let mut index: usize = 0;
        while index < self.entries.len()
            invariant
                entries == self.entries@,
                is_active(entries),
                index <= entries.len(),
                offset_at_start == offset_of(entries, generation as int),
                !has_infinite(entries) ==> offset_at_start < total_span(entries),
                offset == offset_at_start - start(entries, index as int),
                forall|j: int| 0 <= j < index ==> (#[trigger] entries[j]).generations is Some,
            decreases entries.len() - index,
        {
            let entry = &self.entries[index];
            assert(start(entries, index + 1) == start(entries, index as int) + span(
                entries[index as int],
            ));
            match entry.generations {
                None => {
                    return Some((index, entry));
                },
                Some(span) => {
                    if offset < span as u64 {
                        return Some((index, entry));
                    }
                    offset = offset - span as u64;
                },
            }
            index = index + 1;
        }
        // The offset is within the total span or an infinite entry matched.
        assert(false);
        None
    }
}

/// One entry is active at a time.
pub proof fn law_active_entry_is_unique(
    entries: Seq<StackEntry>,
    generation: int,
    i: int,
    j: int,
)
    requires
        runs_at(entries, generation, i),
        runs_at(entries, generation, j),
    ensures
        i == j,
{
    if i < j {
        lemma_start_monotonic(entries, i + 1, j);
        assert(entries[i].generations is Some);
    }
    if j < i {
        lemma_start_monotonic(entries, j + 1, i);
        assert(entries[j].generations is Some);
    }
}

/// The first entry that a generation, counted from the start of a pass, does
/// not lie past.
proof fn lemma_entry_exists(entries: Seq<StackEntry>, offset: int, i: int) -> (n: int)
    requires
        0 <= i < entries.len(),
        start(entries, i) <= offset,
        forall|j: int| 0 <= j < i ==> (#[trigger] entries[j]).generations is Some,
        has_infinite(entries) || offset < total_span(entries),
    ensures
        i <= n < entries.len(),
        start(entries, n) <= offset,
        forall|j: int| 0 <= j < n ==> (#[trigger] entries[j]).generations is Some,
        entries[n].generations is Some ==> offset < start(entries, n + 1),
    decreases entries.len() - i,
{
    if entries[i].generations is None || offset < start(entries, i + 1) {
        i
    } else {
        if i + 1 == entries.len() {
            assert(start(entries, i + 1) == total_span(entries));
            assert(has_infinite(entries));
            let k = choose|k: int|
                0 <= k < entries.len() && (#[trigger] entries[k]).generations is None;
            assert(k == i);
        }
        lemma_entry_exists(entries, offset, i + 1)
    }
}

/// An active stack has an entry for every generation.
pub proof fn law_active_stack_covers_every_generation(entries: Seq<StackEntry>, generation: int)
    requires
        is_active(entries),
        0 <= generation,
    ensures
        exists|i: int| runs_at(entries, generation, i),
{
    lemma_start_monotonic(entries, 0, entries.len() as int);
    let offset = offset_of(entries, generation);
    if !has_infinite(entries) {
        vstd::arithmetic::div_mod::lemma_mod_bound(generation, total_span(entries));
    }
    let n = lemma_entry_exists(entries, offset, 0);
    assert(runs_at(entries, generation, n));
}

/// A stack without an infinite entry loops: after a full pass the same entry
/// is active again.
pub proof fn law_stack_loops(entries: Seq<StackEntry>, generation: int, i: int)
    requires
        is_active(entries),
        !has_infinite(entries),
    ensures
        runs_at(entries, generation, i) <==> runs_at(entries, generation + total_span(entries), i),
{
    lemma_start_monotonic(entries, 0, entries.len() as int);
    vstd::arithmetic::div_mod::lemma_mod_add_multiples_vanish(generation, total_span(entries));
    assert(total_span(entries) + generation == generation + total_span(entries));
}

/// The first infinite entry absorbs every generation from its start onward:
/// the stack never loops back.
pub proof fn law_infinite_entry_absorbs(entries: Seq<StackEntry>, generation: int, i: int)
    requires
        0 <= i < entries.len(),
        entries[i].generations is None,
        forall|j: int| 0 <= j < i ==> (#[trigger] entries[j]).generations is Some,
        start(entries, i) <= generation,
    ensures
        runs_at(entries, generation, i),
{
}

/// An undoable edit to the rule stack. Each variant records what it needs to
/// invert itself: add and remove, move and move back, set stores the old
/// value.
#[derive(Debug)]
pub enum EditCommand {
    Add { index: usize, entry: StackEntry },
    Remove { index: usize, entry: StackEntry },
    SetGenerations { index: usize, old: Option<u32>, new: Option<u32> },
    Move { from: usize, to: usize },
}

impl Clone for EditCommand {
    fn clone(&self) -> (r: Self)
        ensures
            r == *self,
    {
        match self {
            EditCommand::Add { index, entry } => EditCommand::Add {
                index: *index,
                entry: entry.clone(),
            },
            EditCommand::Remove { index, entry } => EditCommand::Remove {
                index: *index,
                entry: entry.clone(),
            },
            EditCommand::SetGenerations { index, old, new } => EditCommand::SetGenerations {
                index: *index,
                old: *old,
                new: *new,
            },
            EditCommand::Move { from, to } => EditCommand::Move { from: *from, to: *to },
        }
    }
}

/// The command names places that a stack of `len` entries has.
pub open spec fn applicable(len: int, command: EditCommand) -> bool {
    match command {
        EditCommand::Add { index, .. } => index <= len,
        EditCommand::Remove { index, .. } => index < len,
        EditCommand::SetGenerations { index, .. } => index < len,
        EditCommand::Move { from, to } => from < len && to < len,
    }
}

/// What the command records of the entries is so.
pub open spec fn truthful(entries: Seq<StackEntry>, command: EditCommand) -> bool {
    match command {
        EditCommand::Add { .. } => true,
        EditCommand::Remove { index, entry } => entry == entries[index as int],
        EditCommand::SetGenerations { index, old, .. } => old
            == entries[index as int].generations,
        EditCommand::Move { .. } => true,
    }
}

/// The entries after the command.
pub open spec fn applied(entries: Seq<StackEntry>, command: EditCommand) -> Seq<StackEntry> {
    match command {
        EditCommand::Add { index, entry } => entries.insert(index as int, entry),
        EditCommand::Remove { index, .. } => entries.remove(index as int),
        EditCommand::SetGenerations { index, new, .. } => entries.update(
            index as int,
            StackEntry { generations: new, ..entries[index as int] },
        ),
        EditCommand::Move { from, to } => entries.remove(from as int).insert(
            to as int,
            entries[from as int],
        ),
    }
}

/// The command that takes the command back.
pub open spec fn inverse(command: EditCommand) -> EditCommand {
    match command {
        EditCommand::Add { index, entry } => EditCommand::Remove { index, entry },
        EditCommand::Remove { index, entry } => EditCommand::Add { index, entry },
        EditCommand::SetGenerations { index, old, new } => EditCommand::SetGenerations {
            index,
            old: new,
            new: old,
        },
        EditCommand::Move { from, to } => EditCommand::Move { from: to, to: from },
    }
}

impl EditCommand {
    /// Carry the command out.
    pub fn apply_to(&self, stack: &mut RuleStack)
        requires
            applicable(old(stack).entries@.len() as int, *self),
        ensures
            final(stack).entries@ == applied(old(stack).entries@, *self),
    {
        match self {
            EditCommand::Add { index, entry } => {
                stack.entries.insert(*index, entry.clone());
            },
            EditCommand::Remove { index, .. } => {
                stack.entries.remove(*index);
            },
            EditCommand::SetGenerations { index, new, .. } => {
                let mut entry = stack.entries[*index].clone();
                entry.generations = *new;
                stack.entries.set(*index, entry);
            },
            EditCommand::Move { from, to } => {
                let entry = stack.entries.remove(*from);
                stack.entries.insert(*to, entry);
            },
        }
    }

    /// The command that takes this one back.
    pub fn inverted(&self) -> (r: EditCommand)
        ensures
            r == inverse(*self),
    {
        match self.clone() {
            EditCommand::Add { index, entry } => EditCommand::Remove { index, entry },
            EditCommand::Remove { index, entry } => EditCommand::Add { index, entry },
            EditCommand::SetGenerations { index, old, new } => EditCommand::SetGenerations {
                index,
                old: new,
                new: old,
            },
            EditCommand::Move { from, to } => EditCommand::Move { from: to, to: from },
        }
    }
}

/// A truthful command is taken back by its inverse, which is truthful too.
pub proof fn law_inverse_takes_back(entries: Seq<StackEntry>, command: EditCommand)
    requires
        applicable(entries.len() as int, command),
        truthful(entries, command),
    ensures
        applicable(applied(entries, command).len() as int, inverse(command)),
        truthful(applied(entries, command), inverse(command)),
        applied(applied(entries, command), inverse(command)) == entries,
{
    assert(applied(applied(entries, command), inverse(command)) =~= entries);
}

/// Taking a command back twice is no change to it.
pub proof fn law_inverse_is_an_involution(command: EditCommand)
    ensures
        inverse(inverse(command)) == command,
{
}

/// A rule stack and the edits that can be taken back or made again; the
/// latest of each comes last.
#[verifier::ext_equal]
pub struct EditorView {
    pub entries: Seq<StackEntry>,
    pub undo: Seq<EditCommand>,
    pub redo: Seq<EditCommand>,
}

impl EditorView {
    /// After a new edit.
    pub open spec fn edited(self, command: EditCommand) -> EditorView {
        EditorView {
            entries: applied(self.entries, command),
            undo: self.undo.push(command),
            redo: Seq::empty(),
        }
    }

    /// After the last edit has been taken back.
    pub open spec fn undone(self) -> EditorView {
        if self.undo.len() == 0 {
            self
        } else {
            EditorView {
                entries: applied(self.entries, inverse(self.undo.last())),
                undo: self.undo.drop_last(),
                redo: self.redo.push(self.undo.last()),
            }
        }
    }

    /// After the last edit taken back has been made again.
    pub open spec fn redone(self) -> EditorView {
        if self.redo.len() == 0 {
            self
        } else {
            EditorView {
                entries: applied(self.entries, self.redo.last()),
                undo: self.undo.push(self.redo.last()),
                redo: self.redo.drop_last(),
            }
        }
    }

    /// The whole history names places that the stack has when its turn comes.
    pub open spec fn consistent(self) -> bool {
        undoable(self.entries.len() as int, self.undo) && redoable(
            self.entries.len() as int,
            self.redo,
        )
    }
}

/// How many entries there are after the command.
pub open spec fn len_after(len: int, command: EditCommand) -> int {
    match command {
        EditCommand::Add { .. } => len + 1,
        EditCommand::Remove { .. } => len - 1,
        _ => len,
    }
}

/// The commands can be taken back one after the other, the last one first.
pub open spec fn undoable(len: int, undo: Seq<EditCommand>) -> bool
    decreases undo.len(),
{
    undo.len() == 0 || (applicable(len, inverse(undo.last())) && undoable(
        len_after(len, inverse(undo.last())),
        undo.drop_last(),
    ))
}

/// The commands can be carried out one after the other, the last one first.
pub open spec fn redoable(len: int, redo: Seq<EditCommand>) -> bool
    decreases redo.len(),
{
    redo.len() == 0 || (applicable(len, redo.last()) && redoable(
        len_after(len, redo.last()),
        redo.drop_last(),
    ))
}

proof fn lemma_len_after(entries: Seq<StackEntry>, command: EditCommand)
    requires
        applicable(entries.len() as int, command),
    ensures
        applied(entries, command).len() == len_after(entries.len() as int, command),
        applicable(len_after(entries.len() as int, command), inverse(command)),
        len_after(len_after(entries.len() as int, command), inverse(command)) == entries.len(),
{
}

/// The rule stack plus its edit history.
pub struct StackEditor {
    pub stack: RuleStack,
    undo: Vec<EditCommand>,
    redo: Vec<EditCommand>,
}

impl View for StackEditor {
    type V = EditorView;

    closed spec fn view(&self) -> EditorView {
        EditorView { entries: self.stack.entries@, undo: self.undo@, redo: self.redo@ }
    }
}

impl Default for StackEditor {
    fn default() -> (r: Self)
        ensures
            r@ == (EditorView { entries: Seq::empty(), undo: Seq::empty(), redo: Seq::empty() }),
            r@.consistent(),
    {
        let r = StackEditor { stack: RuleStack::default(), undo: Vec::new(), redo: Vec::new() };
        assert(r@ =~= EditorView { entries: Seq::empty(), undo: Seq::empty(), redo: Seq::empty() });
        r
    }
}

impl StackEditor {
    /// The stack as it stands.
    pub fn stack(&self) -> (r: &RuleStack)
        ensures
            r.entries@ == self@.entries,
    {
        &self.stack
    }

    /// Carry out a new edit; what had been taken back is forgotten.
    pub fn apply(&mut self, command: EditCommand)
        requires
            old(self)@.consistent(),
            applicable(old(self)@.entries.len() as int, command),
        ensures
            final(self)@ == old(self)@.edited(command),
            final(self)@.consistent(),
    {
        command.apply_to(&mut self.stack);
        self.undo.push(command);
        self.redo.clear();
        proof {
            lemma_len_after(old(self)@.entries, command);
            assert(self@.undo.drop_last() =~= old(self)@.undo);
            assert(self@ =~= old(self)@.edited(command));
        }
    }

    /// Take the last edit back. `false` means that there was none.
    pub fn undo(&mut self) -> (r: bool)
        requires
            old(self)@.consistent(),
        ensures
            r == (old(self)@.undo.len() > 0),
            final(self)@ == old(self)@.undone(),
            final(self)@.consistent(),
    {
        let command = match self.undo.pop() {
            Some(command) => command,
            None => {
                assert(self@ =~= old(self)@);
                return false;
            },
        };
        let inverse = command.inverted();
        inverse.apply_to(&mut self.stack);
        self.redo.push(command);
        proof {
            lemma_len_after(old(self)@.entries, inverse);
            assert(self@.redo.drop_last() =~= old(self)@.redo);
            assert(self@ =~= old(self)@.undone());
        }
        true
    }

    /// Make the last edit that was taken back again. `false` means that there
    /// was none.
    pub fn redo(&mut self) -> (r: bool)
        requires
            old(self)@.consistent(),
        ensures
            r == (old(self)@.redo.len() > 0),
            final(self)@ == old(self)@.redone(),
            final(self)@.consistent(),
    {
        let command = match self.redo.pop() {
            Some(command) => command,
            None => {
                assert(self@ =~= old(self)@);
                return false;
            },
        };
        command.apply_to(&mut self.stack);
        self.undo.push(command);
        proof {
            lemma_len_after(old(self)@.entries, command);
            assert(self@.undo.drop_last() =~= old(self)@.undo);
            assert(self@ =~= old(self)@.redone());
        }
        true
    }

    pub fn can_undo(&self) -> (r: bool)
        ensures
            r == (self@.undo.len() > 0),
    {
        !self.undo.is_empty()
    }

    pub fn can_redo(&self) -> (r: bool)
        ensures
            r == (self@.redo.len() > 0),
    {
        !self.redo.is_empty()
    }
}

/// Each edit of the history records what it changed: taking it back and
/// making it again, or the other way round, leads back to the same entries.
pub open spec fn honest_undo(entries: Seq<StackEntry>, undo: Seq<EditCommand>) -> bool
    decreases undo.len(),
{
    undo.len() == 0 || {
        let before = applied(entries, inverse(undo.last()));
        &&& applied(before, undo.last()) == entries
        &&& honest_undo(before, undo.drop_last())
    }
}

/// As `honest_undo`, for the edits that have been taken back.
pub open spec fn honest_redo(entries: Seq<StackEntry>, redo: Seq<EditCommand>) -> bool
    decreases redo.len(),
{
    redo.len() == 0 || {
        let after = applied(entries, redo.last());
        &&& applied(after, inverse(redo.last())) == entries
        &&& honest_redo(after, redo.drop_last())
    }
}

impl EditorView {
    pub open spec fn honest(self) -> bool {
        honest_undo(self.entries, self.undo) && honest_redo(self.entries, self.redo)
    }

    /// After every edit has been taken back.
    pub open spec fn all_undone(self) -> EditorView
        decreases self.undo.len(),
    {
        if self.undo.len() == 0 {
            self
        } else {
            self.undone().all_undone()
        }
    }

    /// After every edit taken back has been made again.
    pub open spec fn all_redone(self) -> EditorView
        decreases self.redo.len(),
    {
        if self.redo.len() == 0 {
            self
        } else {
            self.redone().all_redone()
        }
    }
}

/// A truthful edit keeps the history honest, and taking it back leads to the
/// entries and the history that were there before.
pub proof fn law_undo_reverts_edit(editor: EditorView, command: EditCommand)
    requires
        editor.honest(),
        applicable(editor.entries.len() as int, command),
        truthful(editor.entries, command),
    ensures
        editor.edited(command).honest(),
        editor.edited(command).undone().entries == editor.entries,
        editor.edited(command).undone().undo == editor.undo,
        editor.edited(command).redo.len() == 0,
{
    law_inverse_takes_back(editor.entries, command);
    assert(editor.edited(command).undo.drop_last() =~= editor.undo);
}

/// Making again what was just taken back changes nothing.
pub proof fn law_redo_reverts_undo(editor: EditorView)
    requires
        editor.honest(),
        editor.undo.len() > 0,
    ensures
        editor.undone().honest(),
        editor.undone().redone() == editor,
{
    assert(editor.undone().redo.drop_last() =~= editor.redo);
    assert(editor.undone().redone() =~= editor);
    law_inverse_is_an_involution(editor.undo.last());
}

/// Taking back what was just made again changes nothing.
pub proof fn law_undo_reverts_redo(editor: EditorView)
    requires
        editor.honest(),
        editor.redo.len() > 0,
    ensures
        editor.redone().honest(),
        editor.redone().undone() == editor,
{
    assert(editor.redone().undo.drop_last() =~= editor.undo);
    assert(editor.redone().undone() =~= editor);
}

/// Taking every edit back and making every edit again leads to the state in
/// which every edit has been made.
pub proof fn law_history_round_trips(editor: EditorView)
    requires
        editor.honest(),
    ensures
        editor.all_undone().all_redone() == editor.all_redone(),
    decreases editor.undo.len(),
{
    if editor.undo.len() > 0 {
        law_redo_reverts_undo(editor);
        law_history_round_trips(editor.undone());
    }
}

/// What taking every edit back leads to does not change with truthful edits,
/// nor with undo and redo.
pub proof fn law_origin_is_kept(editor: EditorView, command: EditCommand)
    requires
        editor.honest(),
    ensures
        applicable(editor.entries.len() as int, command) && truthful(editor.entries, command)
            ==> editor.edited(command).all_undone().entries == editor.all_undone().entries,
        editor.undone().all_undone().entries == editor.all_undone().entries,
        editor.redone().all_undone().entries == editor.all_undone().entries,
{
    if applicable(editor.entries.len() as int, command) && truthful(editor.entries, command) {
        law_undo_reverts_edit(editor, command);
        lemma_origin(editor.edited(command).undone(), editor);
    }
    if editor.redo.len() > 0 {
        law_undo_reverts_redo(editor);
    }
}

proof fn lemma_origin(a: EditorView, b: EditorView)
    requires
        a.entries == b.entries,
        a.undo == b.undo,
    ensures
        a.all_undone().entries == b.all_undone().entries,
    decreases a.undo.len(),
{
    if a.undo.len() > 0 {
        lemma_origin(a.undone(), b.undone());
    }
}

/// `ends` tells of each entry when it ends, in a pass that starts at 0: each
/// runs for as many generations as it says, right after the one before it.
pub open spec fn are_ends(entries: Seq<StackEntry>, ends: Seq<int>) -> bool {
    &&& ends.len() == entries.len() + 1
    &&& ends[0] == 0
    &&& forall|k: int|
        #![trigger entries[k]]
        0 <= k < entries.len() ==> match entries[k].generations {
            Some(n) => ends[k + 1] == ends[k] + n,
            None => ends[k + 1] == ends[k],
        }
}

proof fn lemma_ends(entries: Seq<StackEntry>, ends: Seq<int>, k: int)
    requires
        are_ends(entries, ends),
        0 <= k <= entries.len(),
    ensures
        start(entries, k) == ends[k],
    decreases k,
{
    if k > 0 {
        lemma_ends(entries, ends, k - 1);
        assert(entries[k - 1].generations is Some || entries[k - 1].generations is None);
    }
}

/// Every entry runs for exactly as many generations as it says, whatever its
/// length: where no entry runs forever, entry `i` is the active one from the
/// end of the entry before it up to its own end, in every pass, and a pass
/// takes as long as all entries together.
pub proof fn law_entries_run_for_their_generations(
    entries: Seq<StackEntry>,
    ends: Seq<int>,
    generation: int,
    i: int,
)
    requires
        are_ends(entries, ends),
        forall|k: int| 0 <= k < entries.len() ==> (#[trigger] entries[k]).generations is Some,
        0 <= generation,
        0 <= i < entries.len(),
        ends.last() > 0,
    ensures
        is_active(entries),
        runs_at(entries, generation, i) <==> ends[i] <= generation % ends.last() < ends[i + 1],
        total_span(entries) == ends.last(),
        entries[i].generations matches Some(n) && start(entries, i + 1) - start(entries, i) == n,
{
    lemma_ends(entries, ends, i);
    lemma_ends(entries, ends, i + 1);
    lemma_ends(entries, ends, entries.len() as int);
}

/// The first entry that runs forever is the active one from its start on, and
/// before that each entry runs once, for as many generations as it says.
pub proof fn law_entries_run_up_to_the_infinite_one(
    entries: Seq<StackEntry>,
    ends: Seq<int>,
    generation: int,
    last: int,
    i: int,
)
    requires
        are_ends(entries, ends),
        0 <= last < entries.len(),
        entries[last].generations is None,
        forall|k: int| 0 <= k < last ==> (#[trigger] entries[k]).generations is Some,
        0 <= generation,
    ensures
        is_active(entries),
        runs_at(entries, generation, i) <==> {
            ||| 0 <= i < last && ends[i] <= generation < ends[i + 1]
            ||| i == last && ends[i] <= generation
        },
{
    assert(has_infinite(entries));
    if 0 <= i < entries.len() {
        lemma_ends(entries, ends, i);
        lemma_ends(entries, ends, i + 1);
    }
}

/// A stack has an active entry unless all its entries together run for no time:
/// it has none, or each of them runs for 0 generations.
pub proof fn law_idle_stacks(entries: Seq<StackEntry>)
    ensures
        is_active(entries) <==> exists|i: int|
            0 <= i < entries.len() && (#[trigger] entries[i]).generations != Some(0u32),
        !is_active(entries) && entries.len() > 0 ==> forall|g: int, i: int|
            !#[trigger] runs_at(entries, g, i),
{
    lemma_total_is_zero(entries, entries.len() as int);
    if !is_active(entries) && entries.len() > 0 {
        assert forall|g: int, i: int| !#[trigger] runs_at(entries, g, i) by {
            if 0 <= i < entries.len() {
                lemma_start_monotonic(entries, 0, i);
                lemma_start_monotonic(entries, i, i + 1);
                lemma_start_monotonic(entries, i + 1, entries.len() as int);
                assert(entries[i].generations is Some);
            }
        }
    }
}

proof fn lemma_total_is_zero(entries: Seq<StackEntry>, k: int)
    requires
        0 <= k <= entries.len(),
    ensures
        start(entries, k) >= 0,
        start(entries, k) == 0 <==> forall|i: int|
            0 <= i < k ==> (#[trigger] entries[i]).generations is None || entries[i].generations
                == Some(0u32),
    decreases k,
{
    if k > 0 {
        lemma_total_is_zero(entries, k - 1);
        assert(entries[k - 1].generations is None || entries[k - 1].generations is Some);
    }
}

/// What an edit does to the entries: an added one stands at its place and the
/// rest keep their order; a removed one is gone and the rest keep their order; a
/// changed duration changes nothing else; and a moved one stands where it was
/// moved to, with the rest in their order.
pub proof fn law_edits(entries: Seq<StackEntry>, command: EditCommand)
    requires
        match command {
            EditCommand::Add { index, .. } => index <= entries.len(),
            EditCommand::Remove { index, .. } => index < entries.len(),
            EditCommand::SetGenerations { index, .. } => index < entries.len(),
            EditCommand::Move { from, to } => from < entries.len() && to < entries.len(),
        },
    ensures
        applicable(entries.len() as int, command),
        ({
            let after = applied(entries, command);
            match command {
                EditCommand::Add { index, entry } => {
                    &&& after.len() == entries.len() + 1
                    &&& after[index as int] == entry
                    &&& after.take(index as int) == entries.take(index as int)
                    &&& after.skip(index + 1) == entries.skip(index as int)
                },
                EditCommand::Remove { index, .. } => {
                    &&& after.len() == entries.len() - 1
                    &&& after.take(index as int) == entries.take(index as int)
                    &&& after.skip(index as int) == entries.skip(index + 1)
                },
                EditCommand::SetGenerations { index, new, .. } => {
                    &&& after.len() == entries.len()
                    &&& after[index as int].generations == new
                    &&& after[index as int].name == entries[index as int].name
                    &&& after[index as int].rule == entries[index as int].rule
                    &&& forall|i: int|
                        0 <= i < entries.len() && i != index ==> #[trigger] after[i] == entries[i]
                },
                EditCommand::Move { from, to } => {
                    &&& after.len() == entries.len()
                    &&& after[to as int] == entries[from as int]
                    &&& after.remove(to as int) == entries.remove(from as int)
                },
            }
        }),
{
    let after = applied(entries, command);
    match command {
        EditCommand::Add { index, .. } => {
            assert(after.take(index as int) =~= entries.take(index as int));
            assert(after.skip(index + 1) =~= entries.skip(index as int));
        },
        EditCommand::Remove { index, .. } => {
            assert(after.take(index as int) =~= entries.take(index as int));
            assert(after.skip(index as int) =~= entries.skip(index + 1));
        },
        EditCommand::SetGenerations { .. } => {},
        EditCommand::Move { from, to } => {
            assert(after.remove(to as int) =~= entries.remove(from as int));
        },
    }
}

/// An edit goes on top of the history and forgets what had been taken back;
/// taking it back and making it again move it between the two, and where there
/// is nothing to take back or to make again nothing changes.
pub proof fn law_history(editor: EditorView, command: EditCommand)
    ensures
        editor.edited(command).undo == editor.undo.push(command),
        editor.edited(command).redo.len() == 0,
        editor.undo.len() == 0 ==> editor.undone() == editor,
        editor.redo.len() == 0 ==> editor.redone() == editor,
        editor.undo.len() > 0 ==> {
            &&& editor.undone().undo.push(editor.undo.last()) == editor.undo
            &&& editor.undone().redo == editor.redo.push(editor.undo.last())
        },
        editor.redo.len() > 0 ==> {
            &&& editor.redone().redo.push(editor.redo.last()) == editor.redo
            &&& editor.redone().undo == editor.undo.push(editor.redo.last())
        },
{
    if editor.undo.len() > 0 {
        assert(editor.undone().undo.push(editor.undo.last()) =~= editor.undo);
    }
    if editor.redo.len() > 0 {
        assert(editor.redone().redo.push(editor.redo.last()) =~= editor.redo);
    }
}

/// Any number of edits, each of which records what it changes, can be taken
/// back one after the other, which leads to the entries before them, and made
/// again, which leads to the entries after them.
pub proof fn law_any_number_of_edits_can_be_undone(
    states: Seq<Seq<StackEntry>>,
    commands: Seq<EditCommand>,
)
    requires
        states.len() == commands.len() + 1,
        forall|i: int|
            #![trigger commands[i]]
            0 <= i < commands.len() ==> {
                &&& applicable(states[i].len() as int, commands[i])
                &&& match commands[i] {
                    EditCommand::Remove { index, entry } => entry == states[i][index as int],
                    EditCommand::SetGenerations { index, old, .. } => old
                        == states[i][index as int].generations,
                    _ => true,
                }
                &&& states[i + 1] == applied(states[i], commands[i])
            },
    ensures
        ({
            let editor = EditorView { entries: states.last(), undo: commands, redo: Seq::empty() };
            &&& editor.honest()
            &&& editor.all_undone().entries == states[0]
            &&& editor.all_undone().undo.len() == 0
            &&& editor.all_undone().all_redone() == editor
        }),
    decreases commands.len(),
{
    let editor = EditorView { entries: states.last(), undo: commands, redo: Seq::empty() };
    lemma_edits_are_honest(states, commands);
    lemma_all_undone(states, commands, Seq::empty());
    law_history_round_trips(editor);
}

proof fn lemma_edits_are_honest(states: Seq<Seq<StackEntry>>, commands: Seq<EditCommand>)
    requires
        states.len() == commands.len() + 1,
        forall|i: int|
            #![trigger commands[i]]
            0 <= i < commands.len() ==> applicable(states[i].len() as int, commands[i]) && truthful(
                states[i],
                commands[i],
            ) && states[i + 1] == applied(states[i], commands[i]),
    ensures
        honest_undo(states.last(), commands),
    decreases commands.len(),
{
    if commands.len() > 0 {
        let n = commands.len() - 1;
        assert(commands[n] == commands.last());
        law_inverse_takes_back(states[n], commands[n]);
        let (fewer, less) = (states.drop_last(), commands.drop_last());
        assert forall|i: int|
            #![trigger less[i]]
            0 <= i < less.len() implies applicable(fewer[i].len() as int, less[i]) && truthful(
            fewer[i],
            less[i],
        ) && fewer[i + 1] == applied(fewer[i], less[i]) by {
            assert(less[i] == commands[i]);
        }
        lemma_edits_are_honest(fewer, less);
    }
}

proof fn lemma_all_undone(
    states: Seq<Seq<StackEntry>>,
    commands: Seq<EditCommand>,
    redo: Seq<EditCommand>,
)
    requires
        states.len() == commands.len() + 1,
        forall|i: int|
            #![trigger commands[i]]
            0 <= i < commands.len() ==> applicable(states[i].len() as int, commands[i]) && truthful(
                states[i],
                commands[i],
            ) && states[i + 1] == applied(states[i], commands[i]),
    ensures
        (EditorView { entries: states.last(), undo: commands, redo }).all_undone().entries
            == states[0],
        (EditorView { entries: states.last(), undo: commands, redo }).all_undone().undo.len() == 0,
    decreases commands.len(),
{
    if commands.len() > 0 {
        let n = commands.len() - 1;
        assert(commands[n] == commands.last());
        law_inverse_takes_back(states[n], commands[n]);
        let (fewer, less) = (states.drop_last(), commands.drop_last());
        assert forall|i: int|
            #![trigger less[i]]
            0 <= i < less.len() implies applicable(fewer[i].len() as int, less[i]) && truthful(
            fewer[i],
            less[i],
        ) && fewer[i + 1] == applied(fewer[i], less[i]) by {
            assert(less[i] == commands[i]);
        }
        lemma_all_undone(fewer, less, redo.push(commands.last()));
        let editor = EditorView { entries: states.last(), undo: commands, redo };
        assert(editor.undone() =~= EditorView {
            entries: fewer.last(),
            undo: less,
            redo: redo.push(commands.last()),
        });
    }
}

/// The length of a pass is the time that all entries take together, and an
/// entry that has no length runs forever.
pub proof fn law_pass_length(entries: Seq<StackEntry>, ends: Seq<int>)
    requires
        are_ends(entries, ends),
    ensures
        total_span(entries) == ends.last(),
        has_infinite(entries) <==> exists|i: int|
            0 <= i < entries.len() && (#[trigger] entries[i]).generations == None::<u32>,
{
    lemma_ends(entries, ends, entries.len() as int);
}

} // verus!
