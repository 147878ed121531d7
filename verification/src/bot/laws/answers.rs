//! Answers are shown in full, and not too often.
use vstd::prelude::*;

use super::sessions;
use crate::actions;
use crate::actions::{ActionView, NextView, Outcome, StepView};
use crate::bot::resume;
use crate::bot::turns;
use crate::bot::{BotView, TurnView, EDIT_THROTTLE};
use crate::format::chunks;
use crate::format::markdown;
use crate::text;

verus! {

/// The bot after the pieces of an answer, each with the time at which it comes.
pub open spec fn streamed(bot: BotView, chat_id: i64, pieces: Seq<(Seq<char>, int)>) -> BotView
    decreases pieces.len(),
{
    if pieces.len() == 0 {
        bot
    } else {
        turns::on_delta(
            streamed(bot, chat_id, pieces.drop_last()),
            chat_id,
            pieces.last().0,
            pieces.last().1,
        ).0
    }
}

/// The pieces of an answer in one.
pub open spec fn joined(pieces: Seq<(Seq<char>, int)>) -> Seq<char>
    decreases pieces.len(),
{
    if pieces.len() == 0 {
        Seq::empty()
    } else {
        joined(pieces.drop_last()) + pieces.last().0
    }
}

/// All pieces of an answer are kept, in their order.
pub proof fn pieces_add_up(bot: BotView, chat_id: i64, pieces: Seq<(Seq<char>, int)>)
    requires
        bot.turns.contains_key(chat_id),
    ensures
        streamed(bot, chat_id, pieces).turns.contains_key(chat_id),
        streamed(bot, chat_id, pieces).turns[chat_id] == turns::extended(
            bot.turns[chat_id],
            joined(pieces),
        ),
    decreases pieces.len(),
{
    let turn = bot.turns[chat_id];
    if pieces.len() == 0 {
        assert(turn.text_buffer + Seq::<char>::empty() =~= turn.text_buffer);
    } else {
        pieces_add_up(bot, chat_id, pieces.drop_last());
        let front = joined(pieces.drop_last());
        assert(turn.text_buffer + front + pieces.last().0 =~= turn.text_buffer + joined(pieces));
        assert(front + Seq::<char>::empty() =~= front);
    }
}

/// An answer that streamed in and is completed without a final text of its own is posted in
/// full, and its turn is over.
pub proof fn streamed_answers_are_posted(
    bot: BotView,
    chat_id: i64,
    pieces: Seq<(Seq<char>, int)>,
)
    requires
        bot.turns.contains_key(chat_id),
        bot.turns[chat_id].text_buffer.len() == 0,
        joined(pieces).len() > 0,
    ensures
        ({
            let (after, step) = turns::on_final(
                streamed(bot, chat_id, pieces),
                chat_id,
                Seq::empty(),
            );
            &&& !after.turns.contains_key(chat_id)
            &&& step.actions == turns::posted(
                chat_id,
                turns::open_message(bot.turns[chat_id]),
                turns::message_texts(joined(pieces)),
            )
        }),
{
    pieces_add_up(bot, chat_id, pieces);
    assert(bot.turns[chat_id].text_buffer + joined(pieces) =~= joined(pieces));
}

/// What is posted of an answer goes into the chat text by text, in their order.
pub proof fn posts_carry_their_texts(chat_id: i64, message_id: Option<i64>, texts: Seq<Seq<char>>)
    ensures
        turns::posted(chat_id, message_id, texts).len() == texts.len(),
        sessions::only_shows(turns::posted(chat_id, message_id, texts), chat_id),
        forall|i: int|
            0 <= i < texts.len() ==> match #[trigger] turns::posted(chat_id, message_id, texts)[i] {
                ActionView::SendMessage { text, html, .. } => text == texts[i] && html,
                ActionView::EditMessage { text, html, .. } => text == texts[i] && html,
                _ => false,
            },
{
}

/// The first piece of an answer is shown at once, in the message that stood in for it.
pub proof fn first_piece_is_shown(
    bot: BotView,
    chat_id: i64,
    session_id: Seq<char>,
    prompt: Seq<char>,
    outcomes: Seq<Outcome>,
    message_id: i64,
    started: int,
    text: Seq<char>,
    now: int,
)
    requires
        resume::last_sent(outcomes) == Some(message_id),
        EDIT_THROTTLE <= started <= now,
        text.len() > 0,
    ensures
        ({
            let next = NextView::StartTurn { chat_id, session_id, prompt };
            let turn = resume::resumed(bot, next, outcomes, started).0;
            turns::on_delta(turn, chat_id, text, now).1.actions == seq![
                actions::edited(chat_id, message_id, turns::preview(text)),
            ]
        }),
{
    assert(Seq::<char>::empty() + text =~= text);
}

/// Pieces of an answer do not put off the next edit, and once it is due the whole answer so far
/// is shown.
pub proof fn due_edits_show_everything(bot: BotView, chat_id: i64, text: Seq<char>, now: int)
    requires
        text.len() > 0,
        bot.turns.contains_key(chat_id),
    ensures
        ({
            let before = bot.turns[chat_id];
            let (after, step) = turns::on_delta(bot, chat_id, text, now);
            &&& after.turns[chat_id].last_edit == before.last_edit
            &&& turns::edit_due(before, now) ==> step.actions == seq![
                if before.finalized {
                    actions::html(chat_id, turns::preview(before.text_buffer + text))
                } else {
                    actions::edited(
                        chat_id,
                        before.msg_id,
                        turns::preview(before.text_buffer + text),
                    )
                },
            ]
        }),
{
}

/// Without a turn, pieces of an answer change nothing.
proof fn lemma_streamed_nowhere(bot: BotView, chat_id: i64, pieces: Seq<(Seq<char>, int)>)
    requires
        !bot.turns.contains_key(chat_id),
    ensures
        streamed(bot, chat_id, pieces) == bot,
    decreases pieces.len(),
{
    if pieces.len() > 0 {
        lemma_streamed_nowhere(bot, chat_id, pieces.drop_last());
    }
}

/// After an edit, or a new message in which the answer goes on, nothing is shown of the answer
/// until the interval between edits is over, however many pieces come.
pub proof fn edits_keep_their_distance(
    bot: BotView,
    chat_id: i64,
    outcomes: Seq<Outcome>,
    edited: int,
    pieces: Seq<(Seq<char>, int)>,
    text: Seq<char>,
    now: int,
)
    requires
        now < edited + EDIT_THROTTLE,
    ensures
        ({
            let noted = resume::resumed(bot, NextView::NoteEdit { chat_id }, outcomes, edited).0;
            turns::on_delta(streamed(noted, chat_id, pieces), chat_id, text, now).1
                == actions::done(Seq::empty())
        }),
        ({
            let noted = resume::resumed(
                bot,
                NextView::NoteMessage { chat_id },
                outcomes,
                edited,
            ).0;
            turns::on_delta(streamed(noted, chat_id, pieces), chat_id, text, now).1
                == actions::done(Seq::empty())
        }),
{
    let edit = resume::resumed(bot, NextView::NoteEdit { chat_id }, outcomes, edited).0;
    let message = resume::resumed(bot, NextView::NoteMessage { chat_id }, outcomes, edited).0;
    if bot.turns.contains_key(chat_id) {
        pieces_add_up(edit, chat_id, pieces);
        pieces_add_up(message, chat_id, pieces);
    } else {
        lemma_streamed_nowhere(edit, chat_id, pieces);
        lemma_streamed_nowhere(message, chat_id, pieces);
    }
}

/// The messages of an answer, and what is shown of it while it streams in, stay within the size
/// of a Telegram message.
pub proof fn answers_fit_in_messages(md: Seq<char>)
    ensures
        forall|i: int|
            0 <= i < turns::message_texts(md).len() ==> text::byte_len(
                #[trigger] turns::message_texts(md)[i],
            ) <= turns::MESSAGE_LEN <= chunks::MAX_MESSAGE_LEN,
        text::byte_len(turns::preview(md)) <= chunks::MAX_MESSAGE_LEN,
{
    chunks::chunks_fit(markdown::telegram_html(md), turns::MESSAGE_LEN as nat);
    chunks::truncated_fits(markdown::telegram_html(md));
}

/// True when `list` shows `texts` in a chat, in their order and in HTML: the first in message
/// `message_id`, where there is one, and all others in new messages.
pub open spec fn shown_as(
    list: Seq<ActionView>,
    chat_id: i64,
    message_id: Option<i64>,
    texts: Seq<Seq<char>>,
) -> bool {
    &&& list.len() == texts.len()
    &&& forall|i: int|
        0 <= i < list.len() ==> #[trigger] list[i] == match message_id {
            Some(id) if i == 0 => ActionView::EditMessage {
                chat_id,
                message_id: id,
                text: texts[i],
                html: true,
            },
            _ => ActionView::SendMessage { chat_id, text: texts[i], html: true, keyboard: None },
        }
}

/// A final text is what is posted, whatever streamed in before. Without one, what streamed in is
/// posted. It replaces the open message, or goes into new ones where that is complete. The turn is
/// over, and nothing else changes.
pub proof fn final_texts_are_posted(bot: BotView, chat_id: i64, text: Seq<char>)
    requires
        bot.turns.contains_key(chat_id),
    ensures
        ({
            let turn = bot.turns[chat_id];
            let (after, step) = turns::on_final(bot, chat_id, text);
            let place = if turn.finalized {
                None
            } else {
                Some(turn.msg_id)
            };
            &&& text.len() > 0 ==> shown_as(
                step.actions,
                chat_id,
                place,
                chunks::html_chunks(markdown::telegram_html(text), 4000),
            )
            &&& text.len() == 0 && turn.text_buffer.len() > 0 ==> shown_as(
                step.actions,
                chat_id,
                place,
                chunks::html_chunks(markdown::telegram_html(turn.text_buffer), 4000),
            )
            &&& text.len() == 0 && turn.text_buffer.len() == 0 ==> step.actions.len() == 0
            &&& step.next == NextView::Idle
            &&& after.turns == bot.turns.remove(chat_id)
            &&& after.sessions == bot.sessions
            &&& after.session_to_chat == bot.session_to_chat
            &&& after.pending_approvals == bot.pending_approvals
        }),
{
}

/// A piece of an answer is added to what streamed in. Half a second after the last edit, and not
/// before, the whole answer so far is shown, in the open message or in a new one where that is
/// complete. The bot hears of it then, and nothing else changes.
pub proof fn pieces_are_shown(bot: BotView, chat_id: i64, text: Seq<char>, now: int)
    requires
        bot.turns.contains_key(chat_id),
        text.len() > 0,
    ensures
        ({
            let turn = bot.turns[chat_id];
            let (after, step) = turns::on_delta(bot, chat_id, text, now);
            let shown = chunks::truncated(markdown::telegram_html(turn.text_buffer + text));
            &&& after == (BotView {
                turns: bot.turns.insert(
                    chat_id,
                    TurnView { text_buffer: turn.text_buffer + text, ..turn },
                ),
                ..bot
            })
            &&& now - turn.last_edit < 500_000_000 ==> step == (StepView {
                actions: Seq::empty(),
                next: NextView::Idle,
            })
            &&& now - turn.last_edit >= 500_000_000 && !turn.finalized ==> step == (StepView {
                actions: seq![
                    ActionView::EditMessage {
                        chat_id,
                        message_id: turn.msg_id,
                        text: shown,
                        html: true,
                    },
                ],
                next: NextView::NoteEdit { chat_id },
            })
            &&& now - turn.last_edit >= 500_000_000 && turn.finalized ==> step == (StepView {
                actions: seq![
                    ActionView::SendMessage { chat_id, text: shown, html: true, keyboard: None },
                ],
                next: NextView::NoteMessage { chat_id },
            })
        }),
{
}

/// An empty piece changes nothing, and neither a piece nor a final text does in a chat without a
/// turn.
pub proof fn pieces_without_a_turn_are_passed_over(
    bot: BotView,
    chat_id: i64,
    text: Seq<char>,
    now: int,
)
    ensures
        text.len() == 0 || !bot.turns.contains_key(chat_id) ==> turns::on_delta(
            bot,
            chat_id,
            text,
            now,
        ) == (bot, StepView { actions: Seq::empty(), next: NextView::Idle }),
        !bot.turns.contains_key(chat_id) ==> turns::on_final(bot, chat_id, text) == (
            bot,
            StepView { actions: Seq::empty(), next: NextView::Idle },
        ),
{
}

} // verus!
