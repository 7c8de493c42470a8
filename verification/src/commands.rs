//! Editing commands.

use crate::collation;
use crate::comment;
use crate::cursor::EditorSelection;
use crate::deduplicate;
use crate::edit;
use crate::edit::EditPlan;
use crate::indent;
use crate::join;
use crate::line_operations as lines;
use crate::line_operations::{InsertLineDirection, LineDirection};
use crate::multi_cursor as cursors;
use crate::state::InputState;
use crate::transaction;
use icu_collator::Collator;
use std::ops::Range;
use vstd::prelude::*;
use vstd::string::*;
use vstd::utf8::*;

verus! {

/// A plan, where the editor is a code editor.
pub open spec fn in_code_editor(
    state: InputState,
    plan: Option<(Seq<(int, int, Seq<u8>)>, Seq<EditorSelection>)>,
) -> Option<(Seq<(int, int, Seq<u8>)>, Seq<EditorSelection>)> {
    if state.mode is CodeEditor {
        plan
    } else {
        None
    }
}

/// Whether an edit replaces its range by something else.
pub open spec fn changes_text(t: Seq<u8>, edits: Seq<(int, int, Seq<u8>)>) -> bool {
    exists|i: int|
        #![trigger edits[i]]
        0 <= i < edits.len() && !(edits[i].0 <= edits[i].1 <= t.len() && t.subrange(
            edits[i].0,
            edits[i].1,
        ) == edits[i].2)
}

/// What carrying out a plan does that may leave the text as it is: then only
/// the selections change.
pub open spec fn rewritten(
    before: InputState,
    after: InputState,
    plan: Option<(Seq<(int, int, Seq<u8>)>, Seq<EditorSelection>)>,
    changed: bool,
) -> bool {
    match plan {
        Some((edits, selections)) => if changes_text(before.bytes(), edits) {
            transaction::planned(before, after, plan, changed)
        } else if before.all_selections() == selections {
            !changed && after == before
        } else {
            &&& changed
            &&& after.all_selections() == cursors::normalized(
                before.bytes(),
                selections,
                before.primary(),
            )
            &&& after.occurrence_session is None
            &&& after.snippet_session is None
            &&& crate::state::keeps_text(before, after, true)
        },
        None => !changed && after == before,
    }
}

fn check_changes_text(bytes: &[u8], edits: &Vec<(Range<usize>, String)>) -> (changes: bool)
    ensures
        changes == changes_text(bytes@, edit::edits_view(edits@)),
{
    let ghost ev = edit::edits_view(edits@);
    let mut i: usize = 0;
    while i < edits.len()
        invariant
            i <= edits@.len(),
            ev == edit::edits_view(edits@),
            forall|k: int|
                #![trigger ev[k]]
                0 <= k < i ==> ev[k].0 <= ev[k].1 <= bytes@.len() && bytes@.subrange(
                    ev[k].0,
                    ev[k].1,
                ) == ev[k].2,
        decreases edits.len() - i,
    {
        let start: usize = edits[i].0.start;
        let end: usize = edits[i].0.end;
        let with = edits[i].1.as_str().as_bytes();
        assert(ev[i as int] == edit::edit_view(edits@[i as int]));
        if start > end || end > bytes.len() || end - start != with.len() {
            proof {
                if start <= end && end <= bytes@.len() {
                    assert(bytes@.subrange(start as int, end as int).len() != ev[i as int].2.len());
                }
            }
            return true;
        }
        let mut k: usize = 0;
        while k < with.len()
            invariant
                k <= with@.len(),
                start <= end <= bytes@.len(),
                with@.len() == end - start,
                i < edits@.len(),
                ev == edit::edits_view(edits@),
                ev[i as int] == (start as int, end as int, with@),
                forall|j: int| 0 <= j < k ==> with@[j] == bytes@[start + j],
            decreases with.len() - k,
        {
            if with[k] != bytes[start + k] {
                proof {
                    assert(bytes@.subrange(start as int, end as int)[k as int] != with@[k as int]);
                }
                return true;
            }
            k = k + 1;
        }
        assert(bytes@.subrange(start as int, end as int) =~= with@);
        i = i + 1;
    }
    false
}

impl InputState {
    /// Every selection is normalized.
    proof fn lemma_all_wf(&self)
        requires
            self.wf(),
        ensures
            lines::all_wf(self.all_selections()),
    {
        let all = self.all_selections();
        assert forall|i: int| 0 <= i < all.len() implies (#[trigger] all[i]).wf() by {
            assert(cursors::is_on_boundaries(self.bytes(), self.all_selections()[i]));
        }
    }

    fn carry_out(&mut self, plan: Option<EditPlan>) -> (changed: bool)
        requires
            old(self).wf(),
            old(self).text_version < usize::MAX,
        ensures
            transaction::planned(
                *old(self),
                *final(self),
                match plan {
                    Some(plan) => Some((plan.view_edits(), plan.selections_after@)),
                    None => None,
                },
                changed,
            ),
            final(self).wf(),
    {
        match plan {
            Some(plan) => self.apply_buffer_edits_with_selections(
                plan.edits,
                plan.selections_after,
            ),
            None => false,
        }
    }

    fn carry_out_rewrite(&mut self, plan: Option<EditPlan>) -> (changed: bool)
        requires
            old(self).wf(),
            old(self).text_version < usize::MAX,
        ensures
            rewritten(
                *old(self),
                *final(self),
                match plan {
                    Some(plan) => Some((plan.view_edits(), plan.selections_after@)),
                    None => None,
                },
                changed,
            ),
            final(self).wf(),
    {
        match plan {
            None => false,
            Some(plan) => {
                let document = self.document();
                if check_changes_text(document.as_bytes(), &plan.edits) {
                    return self.apply_buffer_edits_with_selections(
                        plan.edits,
                        plan.selections_after,
                    );
                }
                let current = self.selections();
                if cursors::same_selections(&current, &plan.selections_after) {
                    return false;
                }
                self.set_editor_selections(plan.selections_after);
                true
            },
        }
    }

    /// Toggle the configured line comment for every editor selection as one
    /// undoable mutation. Returns false when the language has no line-comment
    /// token or the action produces no valid edit.
    pub fn toggle_line_comment(&mut self) -> (changed: bool)
        requires
            old(self).wf(),
            old(self).text_version < usize::MAX,
            old(self).bytes().len() * (if old(self).mode.spec_tab_size().tab_size < 1 {
                1
            } else {
                old(self).mode.spec_tab_size().tab_size as int
            }) <= usize::MAX,
        ensures
            ({
                let current = old(self).all_selections();
                let token = old(self).language_configuration@.line_comment;
                let edits = comment::toggle_line_plan(
                    old(self).bytes(),
                    current,
                    encode_utf8((token->Some_0)@),
                    old(self).mode.spec_tab_size().tab_size as int,
                );
                let sorted = edit::sorted_edits(edits);
                transaction::planned(
                    *old(self),
                    *final(self),
                    if old(self).mode is CodeEditor && token is Some {
                        Some(
                            (
                                edits,
                                Seq::new(
                                    current.len(),
                                    |i: int| edit::shifted_selection(sorted, current[i], true),
                                ),
                            ),
                        )
                    } else {
                        None
                    },
                    changed,
                )
            }),
            final(self).wf(),
    {
        if !self.mode.is_code_editor() {
            return false;
        }
        let token = match self.language_configuration.line_comment() {
            Some(token) => token.to_owned(),
            None => {
                return false;
            },
        };
        let current = self.selections();
        let size: usize = self.mode.tab_size().tab_size;
        let edits = comment::plan_toggle_line_comment_edits(
            &self.text,
            current.as_slice(),
            token.as_str(),
            size,
        );
        self.apply_buffer_edits(edits)
    }

    /// Toggle the configured block comment for every selection as one
    /// undoable mutation, retaining the selected content or placing an empty
    /// caret between the new delimiters.
    pub fn toggle_block_comment(&mut self) -> (changed: bool)
        requires
            old(self).wf(),
            old(self).text_version < usize::MAX,
            old(self).language_configuration@.block_comment matches Some(pair) ==> old(
                self,
            ).bytes().len() + (2 * old(self).all_selections().len()) * (encode_utf8(
                pair.open@,
            ).len() + encode_utf8(pair.close@).len() + 2) <= usize::MAX,
        ensures
            transaction::planned(
                *old(self),
                *final(self),
                in_code_editor(
                    *old(self),
                    match old(self).language_configuration@.block_comment {
                        Some(pair) => comment::toggle_block_plan(
                            old(self).bytes(),
                            old(self).all_selections(),
                            encode_utf8(pair.open@),
                            encode_utf8(pair.close@),
                        ),
                        None => None,
                    },
                ),
                changed,
            ),
            final(self).wf(),
    {
        if !self.mode.is_code_editor() {
            return false;
        }
        let current = self.selections();
        let plan = match self.language_configuration.block_comment() {
            Some(pair) => comment::plan_toggle_block_comment_edits(
                &self.text,
                current.as_slice(),
                pair.open.as_str(),
                pair.close.as_str(),
            ),
            None => {
                return false;
            },
        };
        self.carry_out(plan)
    }

    /// Delete every logical line covered by the editor selections as one
    /// undoable mutation. Adjacent or overlapping selections own one block.
    pub fn delete_lines(&mut self) -> (changed: bool)
        requires
            old(self).wf(),
            old(self).text_version < usize::MAX,
        ensures
            transaction::planned(
                *old(self),
                *final(self),
                in_code_editor(
                    *old(self),
                    lines::delete_plan(old(self).bytes(), old(self).all_selections()),
                ),
                changed,
            ),
            final(self).wf(),
    {
        if !self.mode.is_code_editor() {
            return false;
        }
        proof {
            self.lemma_all_wf();
        }
        let current = self.selections();
        let plan = lines::plan_delete_lines(&self.text, current.as_slice());
        self.carry_out(plan)
    }

    /// Insert one indented logical line beside every distinct active line.
    pub fn insert_lines(&mut self, direction: InsertLineDirection) -> (changed: bool)
        requires
            old(self).wf(),
            old(self).text_version < usize::MAX,
            lines::plan_fits(
                old(self).bytes().len() as int,
                old(self).all_selections().len() as int,
            ),
        ensures
            transaction::planned(
                *old(self),
                *final(self),
                in_code_editor(
                    *old(self),
                    lines::insert_plan(old(self).bytes(), old(self).all_selections(), direction),
                ),
                changed,
            ),
            final(self).wf(),
    {
        if !self.mode.is_code_editor() {
            return false;
        }
        proof {
            self.lemma_all_wf();
        }
        let current = self.selections();
        let plan = lines::plan_insert_lines(&self.text, current.as_slice(), direction);
        self.carry_out(plan)
    }

    /// Move the selected lines past the line above or below.
    pub fn move_lines(&mut self, direction: LineDirection) -> (changed: bool)
        requires
            old(self).wf(),
            old(self).text_version < usize::MAX,
            lines::plan_fits(
                old(self).bytes().len() as int,
                old(self).all_selections().len() as int,
            ),
        ensures
            transaction::planned(
                *old(self),
                *final(self),
                in_code_editor(
                    *old(self),
                    lines::move_plan(old(self).bytes(), old(self).all_selections(), direction),
                ),
                changed,
            ),
            final(self).wf(),
    {
        if !self.mode.is_code_editor() {
            return false;
        }
        proof {
            self.lemma_all_wf();
        }
        let current = self.selections();
        let plan = lines::plan_move_lines(&self.text, current.as_slice(), direction);
        self.carry_out(plan)
    }

    /// Copy the selected lines above or below themselves.
    pub fn copy_lines(&mut self, direction: LineDirection) -> (changed: bool)
        requires
            old(self).wf(),
            old(self).text_version < usize::MAX,
            lines::plan_fits(
                old(self).bytes().len() as int,
                old(self).all_selections().len() as int,
            ),
        ensures
            transaction::planned(
                *old(self),
                *final(self),
                in_code_editor(
                    *old(self),
                    lines::copy_plan(old(self).bytes(), old(self).all_selections(), direction),
                ),
                changed,
            ),
            final(self).wf(),
    {
        if !self.mode.is_code_editor() {
            return false;
        }
        proof {
            self.lemma_all_wf();
        }
        let current = self.selections();
        let plan = lines::plan_copy_lines(&self.text, current.as_slice(), direction);
        self.carry_out(plan)
    }

    /// Duplicate each empty selection's logical line or each non-empty
    /// selection's exact text as one undoable edit transaction.
    pub fn duplicate_selections(&mut self) -> (changed: bool)
        requires
            old(self).wf(),
            old(self).text_version < usize::MAX,
            lines::plan_fits(
                old(self).bytes().len() as int,
                old(self).all_selections().len() as int,
            ),
        ensures
            transaction::planned(
                *old(self),
                *final(self),
                in_code_editor(
                    *old(self),
                    lines::duplicate_plan(old(self).bytes(), old(self).all_selections()),
                ),
                changed,
            ),
            final(self).wf(),
    {
        if !self.mode.is_code_editor() {
            return false;
        }
        proof {
            self.lemma_all_wf();
        }
        let current = self.selections();
        let plan = lines::plan_duplicate_selections(&self.text, current.as_slice());
        self.carry_out(plan)
    }

    /// Reverse the selected logical lines, or the whole document for one
    /// single-line selection, while retaining cursor columns and direction.
    pub fn reverse_lines(&mut self) -> (changed: bool)
        requires
            old(self).wf(),
            old(self).text_version < usize::MAX,
            lines::plan_fits(
                old(self).bytes().len() as int,
                old(self).all_selections().len() as int,
            ),
        ensures
            rewritten(
                *old(self),
                *final(self),
                in_code_editor(
                    *old(self),
                    lines::reverse_plan(old(self).bytes(), old(self).all_selections()),
                ),
                changed,
            ),
            final(self).wf(),
    {
        if !self.mode.is_code_editor() {
            return false;
        }
        proof {
            self.lemma_all_wf();
        }
        let current = self.selections();
        let plan = lines::plan_reverse_lines(&self.text, current.as_slice());
        self.carry_out_rewrite(plan)
    }

    /// Keep only the first occurrence of each exact logical line inside each
    /// selection, or across the whole document for one single-line selection.
    pub fn delete_duplicate_lines(&mut self) -> (changed: bool)
        requires
            old(self).wf(),
            old(self).text_version < usize::MAX,
            lines::plan_fits(
                old(self).bytes().len() as int,
                old(self).all_selections().len() as int,
            ),
        ensures
            rewritten(
                *old(self),
                *final(self),
                in_code_editor(
                    *old(self),
                    deduplicate::deduplicate_plan(old(self).bytes(), old(self).all_selections()),
                ),
                changed,
            ),
            final(self).wf(),
    {
        if !self.mode.is_code_editor() {
            return false;
        }
        proof {
            self.lemma_all_wf();
        }
        let current = self.selections();
        let plan = deduplicate::plan_delete_duplicate_lines(&self.text, current.as_slice());
        self.carry_out_rewrite(plan)
    }

    /// Join the selected logical lines, or the active line with its successor,
    /// as one undoable transaction while retaining every cursor.
    pub fn join_lines(&mut self) -> (changed: bool)
        requires
            old(self).wf(),
            old(self).text_version < usize::MAX,
            lines::plan_fits(
                old(self).bytes().len() as int,
                old(self).all_selections().len() as int,
            ),
        ensures
            rewritten(
                *old(self),
                *final(self),
                in_code_editor(
                    *old(self),
                    join::join_plan(old(self).bytes(), old(self).all_selections()),
                ),
                changed,
            ),
            final(self).wf(),
    {
        if !self.mode.is_code_editor() {
            return false;
        }
        proof {
            self.lemma_all_wf();
        }
        let current = self.selections();
        let plan = join::plan_join_lines(&self.text, current.as_slice());
        self.carry_out_rewrite(plan)
    }

    /// Sort the selected logical lines in the order of the collator, or the
    /// whole document when the editor has one single-line selection.
    pub fn sort_lines(&mut self, collator: &Collator, descending: bool) -> (changed: bool)
        requires
            old(self).wf(),
            old(self).text_version < usize::MAX,
        ensures
            transaction::planned(
                *old(self),
                *final(self),
                in_code_editor(
                    *old(self),
                    lines::sort_plan(
                        old(self).bytes(),
                        old(self).all_selections(),
                        lines::collated_orders(
                            old(self).bytes(),
                            old(self).all_selections(),
                            *collator,
                        ),
                        descending,
                    ),
                ),
                changed,
            ),
            final(self).wf(),
    {
        if !self.mode.is_code_editor() {
            return false;
        }
        proof {
            self.lemma_all_wf();
        }
        let current = self.selections();
        let plan = lines::plan_sort_lines(&self.text, current.as_slice(), collator, descending);
        self.carry_out(plan)
    }

    /// Insert one indented logical line above every distinct active line.
    pub fn insert_lines_above(&mut self) -> (changed: bool)
        requires
            old(self).wf(),
            old(self).text_version < usize::MAX,
            lines::plan_fits(
                old(self).bytes().len() as int,
                old(self).all_selections().len() as int,
            ),
        ensures
            transaction::planned(
                *old(self),
                *final(self),
                in_code_editor(
                    *old(self),
                    lines::insert_plan(old(self).bytes(), old(self).all_selections(), InsertLineDirection::Above),
                ),
                changed,
            ),
            final(self).wf(),
    {
        self.insert_lines(InsertLineDirection::Above)
    }

    /// Insert one indented logical line below every distinct active line.
    pub fn insert_lines_below(&mut self) -> (changed: bool)
        requires
            old(self).wf(),
            old(self).text_version < usize::MAX,
            lines::plan_fits(
                old(self).bytes().len() as int,
                old(self).all_selections().len() as int,
            ),
        ensures
            transaction::planned(
                *old(self),
                *final(self),
                in_code_editor(
                    *old(self),
                    lines::insert_plan(old(self).bytes(), old(self).all_selections(), InsertLineDirection::Below),
                ),
                changed,
            ),
            final(self).wf(),
    {
        self.insert_lines(InsertLineDirection::Below)
    }

    /// Move the selected lines up.
    pub fn move_lines_up(&mut self) -> (changed: bool)
        requires
            old(self).wf(),
            old(self).text_version < usize::MAX,
            lines::plan_fits(
                old(self).bytes().len() as int,
                old(self).all_selections().len() as int,
            ),
        ensures
            transaction::planned(
                *old(self),
                *final(self),
                in_code_editor(
                    *old(self),
                    lines::move_plan(old(self).bytes(), old(self).all_selections(), LineDirection::Up),
                ),
                changed,
            ),
            final(self).wf(),
    {
        self.move_lines(LineDirection::Up)
    }

    /// Move the selected lines down.
    pub fn move_lines_down(&mut self) -> (changed: bool)
        requires
            old(self).wf(),
            old(self).text_version < usize::MAX,
            lines::plan_fits(
                old(self).bytes().len() as int,
                old(self).all_selections().len() as int,
            ),
        ensures
            transaction::planned(
                *old(self),
                *final(self),
                in_code_editor(
                    *old(self),
                    lines::move_plan(old(self).bytes(), old(self).all_selections(), LineDirection::Down),
                ),
                changed,
            ),
            final(self).wf(),
    {
        self.move_lines(LineDirection::Down)
    }

    /// Copy the selected lines above themselves.
    pub fn copy_lines_up(&mut self) -> (changed: bool)
        requires
            old(self).wf(),
            old(self).text_version < usize::MAX,
            lines::plan_fits(
                old(self).bytes().len() as int,
                old(self).all_selections().len() as int,
            ),
        ensures
            transaction::planned(
                *old(self),
                *final(self),
                in_code_editor(
                    *old(self),
                    lines::copy_plan(old(self).bytes(), old(self).all_selections(), LineDirection::Up),
                ),
                changed,
            ),
            final(self).wf(),
    {
        self.copy_lines(LineDirection::Up)
    }

    /// Copy the selected lines below themselves.
    pub fn copy_lines_down(&mut self) -> (changed: bool)
        requires
            old(self).wf(),
            old(self).text_version < usize::MAX,
            lines::plan_fits(
                old(self).bytes().len() as int,
                old(self).all_selections().len() as int,
            ),
        ensures
            transaction::planned(
                *old(self),
                *final(self),
                in_code_editor(
                    *old(self),
                    lines::copy_plan(old(self).bytes(), old(self).all_selections(), LineDirection::Down),
                ),
                changed,
            ),
            final(self).wf(),
    {
        self.copy_lines(LineDirection::Down)
    }

    /// Sort the selected logical lines using the operating system locale, or
    /// the whole document when the editor has one single-line selection.
    pub fn sort_lines_ascending(&mut self) -> (changed: bool)
        requires
            old(self).wf(),
            old(self).text_version < usize::MAX,
        ensures
            sorted_by_system(*old(self), *final(self), false, changed),
            final(self).wf(),
    {
        if !self.mode.is_code_editor() {
            assert(sorted_with(
                *self,
                *self,
                collation::chosen_collator(None),
                false,
                false,
            ));
            return false;
        }
        let found = collation::system_line_collator();
        let ghost tag = choose|tag: Option<Seq<char>>|
            found == #[trigger] collation::chosen_collator(tag);
        let changed = match found {
            Some(collator) => self.sort_lines(&collator, false),
            None => false,
        };
        assert(sorted_with(
            *old(self),
            *self,
            collation::chosen_collator(tag),
            false,
            changed,
        ));
        changed
    }

    /// Sort the selected logical lines in descending locale order, or the
    /// whole document when the editor has one single-line selection.
    pub fn sort_lines_descending(&mut self) -> (changed: bool)
        requires
            old(self).wf(),
            old(self).text_version < usize::MAX,
        ensures
            sorted_by_system(*old(self), *final(self), true, changed),
            final(self).wf(),
    {
        if !self.mode.is_code_editor() {
            assert(sorted_with(
                *self,
                *self,
                collation::chosen_collator(None),
                true,
                false,
            ));
            return false;
        }
        let found = collation::system_line_collator();
        let ghost tag = choose|tag: Option<Seq<char>>|
            found == #[trigger] collation::chosen_collator(tag);
        let changed = match found {
            Some(collator) => self.sort_lines(&collator, true),
            None => false,
        };
        assert(sorted_with(
            *old(self),
            *self,
            collation::chosen_collator(tag),
            true,
            changed,
        ));
        changed
    }

    /// Indents the selected lines, or inserts one level at each caret.
    pub fn indent(&mut self, block: bool) -> (changed: bool)
        requires
            old(self).wf(),
            old(self).text_version < usize::MAX,
            indent::indent_fits(
                old(self).bytes().len() as int,
                old(self).all_selections().len() as int,
                old(self).mode.spec_tab_size(),
            ),
        ensures
            transaction::planned(
                *old(self),
                *final(self),
                if old(self).mode.spec_is_indentable() {
                    indent::indent_plan(old(self).bytes(), old(self).all_selections(), old(self).mode.spec_tab_size(), block)
                } else {
                    None
                },
                changed,
            ),
            final(self).wf(),
    {
        if !self.mode.is_indentable() {
            return false;
        }
        proof {
            self.lemma_all_wf();
        }
        let current = self.selections();
        let plan = indent::plan_indent(&self.text, current.as_slice(), self.mode.tab_size(), block);
        self.carry_out(plan)
    }

    /// Takes one level of indentation from the lines of the selections.
    pub fn outdent(&mut self, block: bool) -> (changed: bool)
        requires
            old(self).wf(),
            old(self).text_version < usize::MAX,
        ensures
            transaction::planned(
                *old(self),
                *final(self),
                if old(self).mode.spec_is_indentable() {
                    indent::outdent_plan(old(self).bytes(), old(self).all_selections(), old(self).mode.spec_tab_size())
                } else {
                    None
                },
                changed,
            ),
            final(self).wf(),
    {
        if !self.mode.is_indentable() {
            return false;
        }
        proof {
            self.lemma_all_wf();
        }
        let current = self.selections();
        let plan = indent::plan_outdent(&self.text, current.as_slice(), self.mode.tab_size(), block);
        self.carry_out(plan)
    }
}

/// What sorting does with the collator that was found: without one, nothing.
pub open spec fn sorted_with(
    before: InputState,
    after: InputState,
    found: Option<Collator>,
    descending: bool,
    changed: bool,
) -> bool {
    match found {
        Some(collator) => transaction::planned(
            before,
            after,
            in_code_editor(
                before,
                lines::sort_plan(
                    before.bytes(),
                    before.all_selections(),
                    lines::collated_orders(before.bytes(), before.all_selections(), collator),
                    descending,
                ),
            ),
            changed,
        ),
        None => !changed && after == before,
    }
}

/// What sorting does with the collator for the tag of the system's locale,
/// whatever tag that is.
pub open spec fn sorted_by_system(
    before: InputState,
    after: InputState,
    descending: bool,
    changed: bool,
) -> bool {
    exists|tag: Option<Seq<char>>|
        sorted_with(
            before,
            after,
            #[trigger] collation::chosen_collator(tag),
            descending,
            changed,
        )
}

} // verus!
