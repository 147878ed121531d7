//! What becomes of a message: a refusal, a command, or a prompt for the agent.
use vstd::prelude::*;

use crate::actions::{ActionView, NextView, Outcome, StepView};
use crate::bot::messages;
use crate::bot::resume;
use crate::bot::{BotView, TurnView};
use crate::digits;
use crate::types::TgMessage;
use crate::words;

verus! {

/// A step that says `text` in a chat, as plain text, and is over.
pub open spec fn tells(chat_id: i64, text: Seq<char>) -> StepView {
    StepView {
        actions: seq![
            ActionView::SendMessage { chat_id, text, html: false, keyboard: None },
        ],
        next: NextView::Idle,
    }
}

/// A step that does nothing.
pub open spec fn rests() -> StepView {
    StepView { actions: Seq::empty(), next: NextView::Idle }
}

/// True when the sender of `msg` is on the list, or there is no list.
pub open spec fn welcome(allowed: Seq<i64>, msg: TgMessage) -> bool {
    allowed.len() == 0 || match msg.from {
        Some(user) => exists|i: int| 0 <= i < allowed.len() && allowed[i] == user.id,
        None => false,
    }
}

/// A message without text is passed over, whoever sent it.
pub proof fn silence_is_passed_over(
    bot: BotView,
    allowed: Seq<i64>,
    msg: TgMessage,
    fresh: Seq<char>,
)
    requires
        msg.text is None,
    ensures
        messages::on_message(bot, allowed, msg, fresh) == (bot, rests()),
{
}

/// Whoever is not on the list is told so, whatever the text, and nothing else happens.
pub proof fn others_are_not_authorized(
    bot: BotView,
    allowed: Seq<i64>,
    msg: TgMessage,
    fresh: Seq<char>,
)
    requires
        msg.text is Some,
        !welcome(allowed, msg),
    ensures
        messages::on_message(bot, allowed, msg, fresh) == (
            bot,
            tells(msg.chat.id, "Not authorized."@),
        ),
{
}

/// While a turn is in progress, a prompt is answered by the request to wait.
pub proof fn busy_chats_are_told_to_wait(
    bot: BotView,
    allowed: Seq<i64>,
    msg: TgMessage,
    fresh: Seq<char>,
)
    requires
        welcome(allowed, msg),
        msg.text matches Some(text) && (text@.len() == 0 || text@[0] != '/'),
        bot.turns.contains_key(msg.chat.id),
    ensures
        messages::on_message(bot, allowed, msg, fresh) == (
            bot,
            tells(msg.chat.id, "A turn is already in progress. Please wait or /cancel."@),
        ),
{
}

/// A prompt in a chat without a turn brings a message that stands in for the answer. Where the
/// chat has no session, one is started: it leads to the chat, and is kept in the store.
pub proof fn prompts_get_a_placeholder(
    bot: BotView,
    allowed: Seq<i64>,
    msg: TgMessage,
    fresh: Seq<char>,
)
    requires
        welcome(allowed, msg),
        msg.text matches Some(text) && (text@.len() == 0 || text@[0] != '/'),
        !bot.turns.contains_key(msg.chat.id),
    ensures
        ({
            let chat_id = msg.chat.id;
            let (after, step) = messages::on_message(bot, allowed, msg, fresh);
            let placeholder = ActionView::SendMessage {
                chat_id,
                text: "Thinking..."@,
                html: false,
                keyboard: None,
            };
            &&& after.turns == bot.turns
            &&& after.pending_approvals == bot.pending_approvals
            &&& bot.sessions.contains_key(chat_id) ==> {
                &&& after == bot
                &&& step.actions == seq![placeholder]
            }
            &&& !bot.sessions.contains_key(chat_id) ==> {
                &&& after.sessions == bot.sessions.insert(chat_id, fresh)
                &&& after.session_to_chat == bot.session_to_chat.insert(fresh, chat_id)
                &&& step.actions == seq![
                    ActionView::SaveSession {
                        key: "tg.session."@ + digits::integer(chat_id as int),
                        session_id: fresh,
                    },
                    placeholder,
                ]
            }
        }),
{
}

/// Once the placeholder was sent, the whole text of the prompt goes to the agent, with the
/// session of its chat, and the turn begins with an empty answer in that message. Its first
/// edit is due at once.
pub proof fn whole_prompts_reach_the_agent(
    bot: BotView,
    allowed: Seq<i64>,
    msg: TgMessage,
    fresh: Seq<char>,
    outcomes: Seq<Outcome>,
    message_id: i64,
    now: int,
)
    requires
        welcome(allowed, msg),
        msg.text matches Some(text) && (text@.len() == 0 || text@[0] != '/'),
        !bot.turns.contains_key(msg.chat.id),
        outcomes.len() > 0,
        outcomes.last() == Outcome::Sent(message_id),
    ensures
        ({
            let chat_id = msg.chat.id;
            let (asked, first) = messages::on_message(bot, allowed, msg, fresh);
            let (started, second) = resume::resumed(asked, first.next, outcomes, now);
            &&& second.actions == seq![
                ActionView::SendTyping { chat_id },
                ActionView::Publish {
                    topic: "user.v1.prompt"@,
                    fields: seq![
                        ("type"@, "user_input"@),
                        ("text"@, msg.text->0@),
                        (
                            "session_id"@,
                            if bot.sessions.contains_key(chat_id) {
                                bot.sessions[chat_id]
                            } else {
                                fresh
                            },
                        ),
                    ],
                },
            ]
            &&& started.turns == bot.turns.insert(
                chat_id,
                TurnView {
                    msg_id: message_id,
                    text_buffer: Seq::empty(),
                    last_edit: if now >= 500_000_000 {
                        now - 500_000_000
                    } else {
                        now
                    },
                    finalized: false,
                },
            )
            &&& started.sessions == asked.sessions
            &&& started.session_to_chat == asked.session_to_chat
            &&& started.pending_approvals == bot.pending_approvals
        }),
{
}

/// Where the placeholder could not be sent, the prompt goes nowhere and no turn begins. Where it
/// was sent and the prompt could not be published, the placeholder says so and the turn is over.
/// Where the prompt was published, the turn goes on.
pub proof fn failures_are_told(
    bot: BotView,
    allowed: Seq<i64>,
    msg: TgMessage,
    fresh: Seq<char>,
    sent: Seq<Outcome>,
    message_id: i64,
    published: Seq<Outcome>,
    now: int,
    later: int,
)
    requires
        welcome(allowed, msg),
        msg.text matches Some(text) && (text@.len() == 0 || text@[0] != '/'),
        !bot.turns.contains_key(msg.chat.id),
    ensures
        ({
            let chat_id = msg.chat.id;
            let (asked, first) = messages::on_message(bot, allowed, msg, fresh);
            let (started, second) = resume::resumed(asked, first.next, sent, now);
            let (after, third) = resume::resumed(started, second.next, published, later);
            let begun = sent.len() > 0 && sent.last() == Outcome::Sent(message_id);
            let failed = published.len() > 0 && published.last() == Outcome::Failed;
            &&& sent.len() == 0 || !(sent.last() is Sent) ==> (started, second) == (
                asked,
                rests(),
            )
            &&& begun && failed ==> {
                &&& third == (StepView {
                    actions: seq![
                        ActionView::EditMessage {
                            chat_id,
                            message_id,
                            text: "Failed to send message to agent."@,
                            html: false,
                        },
                    ],
                    next: NextView::Idle,
                })
                &&& after.turns == bot.turns
                &&& after.sessions == asked.sessions
                &&& after.session_to_chat == asked.session_to_chat
                &&& after.pending_approvals == bot.pending_approvals
            }
            &&& begun && !failed ==> (after, third) == (started, rests())
        }),
{
    let chat_id = msg.chat.id;
    let (asked, first) = messages::on_message(bot, allowed, msg, fresh);
    let (started, second) = resume::resumed(asked, first.next, sent, now);
    let (after, third) = resume::resumed(started, second.next, published, later);
    if sent.len() > 0 && sent.last() == Outcome::Sent(message_id) && published.len() > 0
        && published.last() == Outcome::Failed {
        assert(after.turns =~= bot.turns);
    }
}

/// This holds of every bot that hears of a prompt, whatever came in between: the turn begins, or
/// the prompt is lost, for that chat alone. Where the prompt could not be published, the
/// placeholder says so even if the turn is over already.
pub proof fn prompts_are_heard_of(
    bot: BotView,
    chat_id: i64,
    session_id: Seq<char>,
    prompt: Seq<char>,
    message_id: i64,
    outcomes: Seq<Outcome>,
    now: int,
)
    ensures
        ({
            let start = NextView::StartTurn { chat_id, session_id, prompt };
            let confirm = NextView::ConfirmPrompt { chat_id, message_id };
            let (started, asked) = resume::resumed(bot, start, outcomes, now);
            let (after, told) = resume::resumed(bot, confirm, outcomes, now);
            let sent = outcomes.len() > 0 && outcomes.last() == Outcome::Sent(message_id);
            let failed = outcomes.len() > 0 && outcomes.last() == Outcome::Failed;
            &&& sent ==> {
                &&& asked == (StepView {
                    actions: seq![
                        ActionView::SendTyping { chat_id },
                        ActionView::Publish {
                            topic: "user.v1.prompt"@,
                            fields: seq![
                                ("type"@, "user_input"@),
                                ("text"@, prompt),
                                ("session_id"@, session_id),
                            ],
                        },
                    ],
                    next: confirm,
                })
                &&& started == (BotView {
                    turns: bot.turns.insert(
                        chat_id,
                        TurnView {
                            msg_id: message_id,
                            text_buffer: Seq::empty(),
                            last_edit: if now >= 500_000_000 {
                                now - 500_000_000
                            } else {
                                now
                            },
                            finalized: false,
                        },
                    ),
                    ..bot
                })
            }
            &&& outcomes.len() == 0 || !(outcomes.last() is Sent) ==> (started, asked) == (
                bot,
                rests(),
            )
            &&& failed ==> {
                &&& after == (BotView { turns: bot.turns.remove(chat_id), ..bot })
                &&& told == (StepView {
                    actions: seq![
                        ActionView::EditMessage {
                            chat_id,
                            message_id,
                            text: "Failed to send message to agent."@,
                            html: false,
                        },
                    ],
                    next: NextView::Idle,
                })
            }
            &&& !failed ==> (after, told) == (bot, rests())
        }),
{
}

/// The characters with which Unicode parts words.
pub open spec fn blank(c: char) -> bool {
    c == ' ' || '\t' <= c <= '\r' || c == '\u{85}' || c == '\u{a0}' || c == '\u{1680}'
        || '\u{2000}' <= c <= '\u{200a}' || c == '\u{2028}' || c == '\u{2029}' || c == '\u{202f}'
        || c == '\u{205f}' || c == '\u{3000}'
}

/// The characters up to the first blank are a word.
proof fn lemma_leading_word(word: Seq<char>, rest: Seq<char>)
    requires
        forall|i: int| 0 <= i < word.len() ==> !blank(#[trigger] word[i]),
        rest.len() == 0 || blank(rest[0]),
    ensures
        words::leading_word(word + rest) == word,
    decreases word.len(),
{
    let s = word + rest;
    if word.len() == 0 {
        assert(s =~= rest);
        assert(words::leading_word(s) =~= word);
    } else {
        assert(!blank(word[0]));
        assert forall|i: int| 0 <= i < word.skip(1).len() implies !blank(
            #[trigger] word.skip(1)[i],
        ) by {
            assert(!blank(word[i + 1]));
        }
        lemma_leading_word(word.skip(1), rest);
        assert(s.skip(1) =~= word.skip(1) + rest);
        assert(seq![word[0]] + word.skip(1) =~= word);
    }
}

/// The first word of a text is found behind blanks and in front of the next one, and is all of a
/// text without blanks.
pub proof fn first_words_are_found(front: Seq<char>, word: Seq<char>, rest: Seq<char>)
    requires
        forall|i: int| 0 <= i < front.len() ==> blank(#[trigger] front[i]),
        word.len() > 0,
        forall|i: int| 0 <= i < word.len() ==> !blank(#[trigger] word[i]),
        rest.len() == 0 || blank(rest[0]),
    ensures
        words::first_word(front + word + rest) == word,
    decreases front.len(),
{
    let s = front + word + rest;
    if front.len() == 0 {
        assert(s =~= word + rest);
        assert(!blank(word[0]));
        assert(s[0] == word[0]);
        lemma_leading_word(word, rest);
    } else {
        assert(blank(front[0]));
        assert(s[0] == front[0]);
        assert forall|i: int| 0 <= i < front.skip(1).len() implies blank(
            #[trigger] front.skip(1)[i],
        ) by {
            assert(blank(front[i + 1]));
        }
        first_words_are_found(front.skip(1), word, rest);
        assert(s.skip(1) =~= front.skip(1) + word + rest);
    }
}

/// The four commands are different words.
proof fn lemma_commands_differ()
    ensures
        "/start"@ != "/reset"@,
        "/help"@ != "/reset"@,
        "/start"@ != "/cancel"@,
        "/help"@ != "/cancel"@,
        "/reset"@ != "/cancel"@,
        "/start"@.len() > 0 && "/start"@[0] == '/',
        "/help"@.len() > 0 && "/help"@[0] == '/',
        "/reset"@.len() > 0 && "/reset"@[0] == '/',
        "/cancel"@.len() > 0 && "/cancel"@[0] == '/',
{
    reveal_strlit("/start");
    reveal_strlit("/help");
    reveal_strlit("/reset");
    reveal_strlit("/cancel");
    assert("/start"@[1] != "/reset"@[1]);
    assert("/help"@[1] != "/reset"@[1]);
    assert("/start"@[1] != "/cancel"@[1]);
    assert("/help"@[1] != "/cancel"@[1]);
    assert("/reset"@[1] != "/cancel"@[1]);
}

/// A message that begins with a slash is a command, told by its first word alone. `/start` and
/// `/help` explain the bot. `/reset` ends the session, in the store too, and the turn. `/cancel`
/// ends the turn and keeps the session. All other commands are unknown, and change nothing.
pub proof fn commands_are_carried_out(
    bot: BotView,
    allowed: Seq<i64>,
    msg: TgMessage,
    fresh: Seq<char>,
    word: Seq<char>,
    rest: Seq<char>,
)
    requires
        welcome(allowed, msg),
        msg.text matches Some(text) && text@ == word + rest,
        word.len() > 0,
        word[0] == '/',
        forall|i: int| 0 <= i < word.len() ==> !blank(#[trigger] word[i]),
        rest.len() == 0 || blank(rest[0]),
    ensures
        ({
            let chat_id = msg.chat.id;
            let (after, step) = messages::on_message(bot, allowed, msg, fresh);
            let help = "<b>Astrid Telegram Bot</b>\n\n\
                Send any text message to interact with the agent.\n\n\
                <b>Commands:</b>\n\
                /start — Welcome message\n\
                /help — This help text\n\
                /reset — End session and start fresh\n\
                /cancel — Cancel the current turn"@;
            &&& word == "/start"@ || word == "/help"@ ==> after == bot && step == (StepView {
                actions: seq![
                    ActionView::SendMessage { chat_id, text: help, html: true, keyboard: None },
                ],
                next: NextView::Idle,
            })
            &&& word == "/reset"@ ==> {
                let told = ActionView::SendMessage {
                    chat_id,
                    text: "Session reset."@,
                    html: false,
                    keyboard: None,
                };
                let key = "tg.session."@ + digits::integer(chat_id as int);
                &&& after.sessions == bot.sessions.remove(chat_id)
                &&& after.turns == bot.turns.remove(chat_id)
                &&& after.pending_approvals == bot.pending_approvals
                &&& after.session_to_chat == if bot.sessions.contains_key(chat_id) {
                    bot.session_to_chat.remove(bot.sessions[chat_id])
                } else {
                    bot.session_to_chat
                }
                &&& step.next == NextView::Idle
                &&& step.actions == if bot.sessions.contains_key(chat_id) {
                    seq![ActionView::DeleteSession { key }, told]
                } else {
                    seq![told]
                }
            }
            &&& word == "/cancel"@ ==> {
                &&& after.turns == bot.turns.remove(chat_id)
                &&& after.sessions == bot.sessions
                &&& after.session_to_chat == bot.session_to_chat
                &&& after.pending_approvals == bot.pending_approvals
                &&& bot.turns.contains_key(chat_id) ==> step == tells(chat_id, "Turn cancelled."@)
                &&& !bot.turns.contains_key(chat_id) ==> step == tells(
                    chat_id,
                    "No turn in progress."@,
                )
            }
            &&& word != "/start"@ && word != "/help"@ && word != "/reset"@ && word != "/cancel"@
                ==> (after, step) == (bot, tells(chat_id, "Unknown command. Try /help."@))
        }),
{
    let text = msg.text->0@;
    lemma_commands_differ();
    first_words_are_found(Seq::empty(), word, rest);
    assert(Seq::<char>::empty() + word + rest =~= text);
    assert(text[0] == word[0]);
    let after = messages::on_message(bot, allowed, msg, fresh).0;
    if word == "/reset"@ {
        assert(after.sessions =~= bot.sessions.remove(msg.chat.id));
    }
}

/// A command that is carried out is told by its first word, wherever that begins. One of nothing
/// but blanks is unknown.
pub proof fn first_words_decide(
    bot: BotView,
    msg: TgMessage,
    fresh: Seq<char>,
    front: Seq<char>,
    word: Seq<char>,
    rest: Seq<char>,
)
    requires
        msg.text matches Some(text) && text@ == word,
        forall|i: int| 0 <= i < front.len() ==> blank(#[trigger] front[i]),
        forall|i: int| 0 <= i < word.len() ==> !blank(#[trigger] word[i]),
        rest.len() == 0 || blank(rest[0]),
    ensures
        word.len() > 0 && word[0] == '/' ==> messages::on_command(
            bot,
            msg.chat.id,
            front + word + rest,
        ) == messages::on_message(bot, Seq::empty(), msg, fresh),
        word.len() > 0 && word[0] != '/' ==> messages::on_command(
            bot,
            msg.chat.id,
            front + word + rest,
        ) == (bot, tells(msg.chat.id, "Unknown command. Try /help."@)),
        messages::on_command(bot, msg.chat.id, front) == (
            bot,
            tells(msg.chat.id, "Unknown command. Try /help."@),
        ),
{
    lemma_commands_differ();
    if word.len() > 0 {
        first_words_are_found(front, word, rest);
        first_words_are_found(Seq::empty(), word, Seq::empty());
        assert(Seq::<char>::empty() + word + Seq::<char>::empty() =~= word);
    }
    lemma_no_word(front);
}

/// Blanks hold no word.
proof fn lemma_no_word(s: Seq<char>)
    requires
        forall|i: int| 0 <= i < s.len() ==> blank(#[trigger] s[i]),
    ensures
        words::first_word(s) == Seq::<char>::empty(),
    decreases s.len(),
{
    if s.len() > 0 {
        assert(blank(s[0]));
        assert forall|i: int| 0 <= i < s.skip(1).len() implies blank(#[trigger] s.skip(1)[i]) by {
            assert(blank(s[i + 1]));
        }
        lemma_no_word(s.skip(1));
    } else {
        assert(words::first_word(s) =~= Seq::<char>::empty());
    }
}

/// After an edit, and after a new message, the answer goes on from that time, in the new message
/// where one was sent. After the text in front of a question was posted, it goes on in the last
/// message of these, the question aside. Nothing else changes, and nothing is done.
pub proof fn turns_go_on(
    bot: BotView,
    chat_id: i64,
    outcomes: Seq<Outcome>,
    message_id: i64,
    i: int,
    now: int,
)
    requires
        bot.turns.contains_key(chat_id),
    ensures
        ({
            let turn = bot.turns[chat_id];
            let (edit, first) = resume::resumed(
                bot,
                NextView::NoteEdit { chat_id },
                outcomes,
                now,
            );
            let (new, second) = resume::resumed(
                bot,
                NextView::NoteMessage { chat_id },
                outcomes,
                now,
            );
            let (flush, third) = resume::resumed(
                bot,
                NextView::NoteFlush { chat_id },
                outcomes,
                now,
            );
            let later = TurnView { last_edit: now, ..turn };
            &&& first == rests() && second == rests() && third == rests()
            &&& edit == (BotView { turns: bot.turns.insert(chat_id, later), ..bot })
            &&& outcomes.len() > 0 && outcomes.last() == Outcome::Sent(message_id) ==> new == (
            BotView {
                turns: bot.turns.insert(
                    chat_id,
                    TurnView { msg_id: message_id, finalized: false, ..later },
                ),
                ..bot
            })
            &&& outcomes.len() == 0 || !(outcomes.last() is Sent) ==> new == edit
            &&& 0 <= i < outcomes.len() - 1 && outcomes[i] == Outcome::Sent(message_id) && (
            forall|j: int| i < j < outcomes.len() - 1 ==> !(#[trigger] outcomes[j] is Sent))
                ==> flush == (BotView {
                turns: bot.turns.insert(chat_id, TurnView { msg_id: message_id, ..turn }),
                ..bot
            })
            &&& (forall|j: int|
                0 <= j < outcomes.len() - 1 ==> !(#[trigger] outcomes[j] is Sent)) ==> flush
                == bot
        }),
{
    let turn = bot.turns[chat_id];
    if 0 <= i < outcomes.len() - 1 && outcomes[i] == Outcome::Sent(message_id) && (forall|j: int|
        i < j < outcomes.len() - 1 ==> !(#[trigger] outcomes[j] is Sent)) {
        lemma_latest(turn.msg_id, outcomes.drop_last(), message_id, i);
    }
    if forall|j: int| 0 <= j < outcomes.len() - 1 ==> !(#[trigger] outcomes[j] is Sent) {
        if outcomes.len() > 0 {
            lemma_none_later(turn.msg_id, outcomes.drop_last());
        }
        let flush = resume::resumed(bot, NextView::NoteFlush { chat_id }, outcomes, now).0;
        assert(flush.turns =~= bot.turns);
    }
}

/// The last message that was sent is the latest.
proof fn lemma_latest(first: i64, outcomes: Seq<Outcome>, message_id: i64, i: int)
    requires
        0 <= i < outcomes.len(),
        outcomes[i] == Outcome::Sent(message_id),
        forall|j: int| i < j < outcomes.len() ==> !(#[trigger] outcomes[j] is Sent),
    ensures
        resume::latest_message(first, outcomes) == message_id,
    decreases outcomes.len(),
{
    if i < outcomes.len() - 1 {
        assert(!(outcomes[outcomes.len() - 1] is Sent));
        assert forall|j: int| i < j < outcomes.len() - 1 implies !(#[trigger] outcomes.drop_last()[
        j] is Sent) by {
            assert(!(outcomes[j] is Sent));
        }
        lemma_latest(first, outcomes.drop_last(), message_id, i);
    }
}

/// Where none was sent, the first one stays.
proof fn lemma_none_later(first: i64, outcomes: Seq<Outcome>)
    requires
        forall|j: int| 0 <= j < outcomes.len() ==> !(#[trigger] outcomes[j] is Sent),
    ensures
        resume::latest_message(first, outcomes) == first,
    decreases outcomes.len(),
{
    if outcomes.len() > 0 {
        assert(!(outcomes[outcomes.len() - 1] is Sent));
        assert forall|j: int| 0 <= j < outcomes.len() - 1 implies !(#[trigger] outcomes.drop_last()[
        j] is Sent) by {
            assert(!(outcomes[j] is Sent));
        }
        lemma_none_later(first, outcomes.drop_last());
    }
}

/// What is heard of a chat without a turn changes nothing, and leads to nothing. Where nothing is
/// to be heard of a step, this holds of every bot.
pub proof fn late_news_change_nothing(
    bot: BotView,
    chat_id: i64,
    outcomes: Seq<Outcome>,
    now: int,
)
    ensures
        !bot.turns.contains_key(chat_id) ==> {
            &&& resume::resumed(bot, NextView::NoteEdit { chat_id }, outcomes, now) == (
                bot,
                rests(),
            )
            &&& resume::resumed(bot, NextView::NoteMessage { chat_id }, outcomes, now) == (
                bot,
                rests(),
            )
            &&& resume::resumed(bot, NextView::NoteFlush { chat_id }, outcomes, now) == (
                bot,
                rests(),
            )
        },
        resume::resumed(bot, NextView::Idle, outcomes, now) == (bot, rests()),
{
}

} // verus!
