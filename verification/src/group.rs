//! Group study rooms: a host walks a room through the questions of a bank;
//! participants vote on each; the host reveals the answer, moves on, or
//! ends the room. Room codes and host tokens are random.
use vstd::prelude::*;

use crate::api::{json_string_list, parse_card_ids, question_by_id, ApiError};
use crate::questions::{has_key, keys_distinct, pairs_view, Bank, Question};
use crate::text::{ascii_upper, lowercase, to_ascii_uppercase, trim, trimmed};
use crate::validation::views;

verus! {

/// A stored group room. `status` is `"voting"`, `"revealed"` or `"ended"`;
/// `card_ids_json` is the room's question order as a JSON list of ids.
#[derive(Debug, PartialEq, Eq)]
pub struct GroupRoomRecord {
    pub code: String,
    pub host_token: String,
    pub cert: String,
    pub card_ids_json: String,
    pub current_index: usize,
    pub status: String,
}

/// A room code as typed by a user, normalized: trimmed and upper-cased.
pub fn normalize_group_code(code: &str) -> (r: String)
    ensures
        r@ == ascii_upper(trimmed(code@)),
{
    to_ascii_uppercase(trim(code))
}

/// The host token `token` is the room's.
pub open spec fn is_host(room: GroupRoomRecord, token: Option<Seq<char>>) -> bool {
    token matches Some(t) && t == room.host_token@
}

/// Only the holder of the room's host token may steer it.
pub fn require_group_host(room: &GroupRoomRecord, token: Option<&str>) -> (r: Result<(), ApiError>)
    ensures
        r is Ok <==> is_host(*room, crate::questions::opt_view(token)),
        r matches Err(e) ==> e.status == 403 && e.message@ == "Invalid group host token"@,
{
    match token {
        Some(t) => if crate::text::str_eq(t, room.host_token.as_str()) {
            Ok(())
        } else {
            Err(ApiError::forbidden("Invalid group host token"))
        },
        None => Err(ApiError::forbidden("Invalid group host token")),
    }
}

/// A vote's answer, normalized (trimmed, upper-cased), must be a single
/// byte naming one of the question's options.
pub fn validate_group_answer(answer: &str, q: &Question) -> (r: Result<String, ApiError>)
    ensures
        r is Ok <==> vstd::utf8::encode_utf8(ascii_upper(trimmed(answer@))).len() as usize == 1 && has_key(
            q.options@,
            ascii_upper(trimmed(answer@)),
        ),
        r matches Ok(s) ==> s@ == ascii_upper(trimmed(answer@)),
        r matches Err(e) ==> e.status == 400 && e.message@ == "Answer is not valid for this question"@,
{
    let normalized = to_ascii_uppercase(trim(answer));
    if normalized.as_str().len() != 1 || !crate::validation::contains_key(
        &q.options,
        normalized.as_str(),
    ) {
        return Err(ApiError::bad_request("Answer is not valid for this question"));
    }
    Ok(normalized)
}

/// A copy of a string table.
fn copy_pairs(v: &Vec<(String, String)>) -> (r: Vec<(String, String)>)
    ensures
        r@ == v@,
{
    let mut r: Vec<(String, String)> = Vec::new();
    let mut i: usize = 0;
    while i < v.len()
        invariant
            0 <= i <= v@.len(),
            r@ == v@.take(i as int),
        decreases v.len() - i,
    {
        r.push((v[i].0.clone(), v[i].1.clone()));
        assert(r@ =~= v@.take(i + 1));
        i += 1;
    }
    assert(v@.take(v@.len() as int) =~= v@);
    r
}

/// A question as shown to a room: without its answer and explanation.
#[derive(Debug, PartialEq, Eq)]
pub struct GroupQuestion {
    pub id: String,
    pub domain: u32,
    pub scenario: String,
    pub question: String,
    pub options: Vec<(String, String)>,
}

/// The room view of a question.
pub fn group_question(q: &Question) -> (r: GroupQuestion)
    ensures
        r.id == q.id,
        r.domain == q.domain,
        r.scenario == q.scenario,
        r.question == q.question,
        r.options@ == q.options@,
{
    GroupQuestion {
        id: q.id.clone(),
        domain: q.domain,
        scenario: q.scenario.clone(),
        question: q.question.clone(),
        options: copy_pairs(&q.options),
    }
}

/// The id of the question a room is on: none once the room has ended or
/// when the index is past the list.
pub open spec fn current_card_id(room: GroupRoomRecord, ids: Seq<Seq<char>>) -> Option<Seq<char>> {
    if room.status@ == "ended"@ || room.current_index >= ids.len() {
        None
    } else {
        Some(ids[room.current_index as int])
    }
}

/// The card ids of a room and the question it is on.
pub fn group_current_question<'a>(room: &GroupRoomRecord, bank: &'a Bank) -> (r: Result<
    (Vec<String>, Option<&'a Question>),
    ApiError,
>)
    ensures
        r is Ok <==> json_string_list(room.card_ids_json@) is Some,
        r matches Err(e) ==> e.status == 500 && e.message@ == "deserialize group room card ids"@,
        r matches Ok(p) ==> json_string_list(room.card_ids_json@) == Some(views(p.0@)),
        r matches Ok(p) ==> match current_card_id(*room, views(p.0@)) {
            None => p.1 is None,
            Some(id) => match question_by_id(bank.questions@, id) {
                None => p.1 is None,
                Some(q) => p.1 matches Some(x) && *x == q,
            },
        },
{
    let ids = match parse_card_ids(room.card_ids_json.as_str(), "deserialize group room card ids") {
        Ok(v) => v,
        Err(e) => return Err(e),
    };
    if crate::text::str_eq(room.status.as_str(), "ended") || room.current_index >= ids.len() {
        return Ok((ids, None));
    }
    assert(views(ids@)[room.current_index as int] == ids@[room.current_index as int]@);
    let q = crate::api::find_question(&bank.questions, ids[room.current_index].as_str());
    Ok((ids, q))
}

/// One answer letter and its votes.
#[derive(Debug, PartialEq, Eq)]
pub struct GroupVoteCount {
    pub answer: String,
    pub count: u32,
}

/// What a room shows: where it stands, the current question, its votes,
/// the asking participant's own vote, and, once revealed, the answer (and,
/// for the host, the explanation).
#[derive(Debug, PartialEq, Eq)]
pub struct GroupRoomState {
    pub code: String,
    pub cert: String,
    pub status: String,
    pub current_index: usize,
    pub total_questions: usize,
    pub current_question: Option<GroupQuestion>,
    pub vote_counts: Vec<GroupVoteCount>,
    pub total_votes: u32,
    pub selected_answer: Option<String>,
    pub correct_answer: Option<String>,
    pub explanation: Option<String>,
}

/// The votes for `answer` among the stored counts: the last entry for it,
/// or zero.
pub open spec fn votes_for(counts: Seq<(String, u32)>, answer: Seq<char>) -> u32
    decreases counts.len(),
{
    if counts.len() == 0 {
        0
    } else if counts.last().0@ == answer {
        counts.last().1
    } else {
        votes_for(counts.drop_last(), answer)
    }
}

/// The sum of the votes for each of `answers`.
pub open spec fn votes_total(counts: Seq<(String, u32)>, answers: Seq<Seq<char>>) -> nat
    decreases answers.len(),
{
    if answers.len() == 0 {
        0
    } else {
        votes_total(counts, answers.drop_last()) + (votes_for(counts, answers.last()) as nat)
    }
}

/// The votes stored for `answer`.
fn votes_for_exec(counts: &Vec<(String, u32)>, answer: &String) -> (r: u32)
    ensures
        r == votes_for(counts@, answer@),
{
    let mut i: usize = counts.len();
    assert(counts@.take(i as int) =~= counts@);
    while i > 0
        invariant
            0 <= i <= counts@.len(),
            votes_for(counts@, answer@) == votes_for(counts@.take(i as int), answer@),
        decreases i,
    {
        assert(counts@.take(i as int).drop_last() =~= counts@.take(i - 1));
        assert(counts@.take(i as int).last() == counts@[i - 1]);
        if counts[i - 1].0 == *answer {
            return counts[i - 1].1;
        }
        i -= 1;
    }
    0
}

/// The participant whose own vote is shown: the trimmed id, when there is
/// one that is not blank.
pub fn participant_key(participant_id: Option<&str>) -> (r: Option<String>)
    ensures
        match participant_id {
            Some(p) => if trimmed(p@).len() > 0 {
                r matches Some(k) && k@ == trimmed(p@)
            } else {
                r is None
            },
            None => r is None,
        },
{
    match participant_id {
        Some(p) => {
            let t = trim(p);
            if t.is_empty() {
                None
            } else {
                Some(crate::text::to_owned(t))
            }
        },
        None => None,
    }
}

/// `s` is the state shown for `room` whose card ids are `ids`, current
/// question `current`, stored vote counts `counts` and asker's vote
/// `selected`.
pub open spec fn room_state_of(
    s: GroupRoomState,
    room: GroupRoomRecord,
    ids: Seq<Seq<char>>,
    current: Option<Question>,
    counts: Seq<(String, u32)>,
    selected: Option<String>,
    include_host_fields: bool,
) -> bool {
    let revealed = room.status@ == "revealed"@;
    &&& s.code == room.code
    &&& s.cert == room.cert
    &&& s.status == room.status
    &&& s.current_index == room.current_index
    &&& s.total_questions == ids.len()
    &&& match current {
        None => {
            &&& s.current_question is None
            &&& s.vote_counts@.len() == 0
            &&& s.total_votes == 0
            &&& s.selected_answer is None
            &&& s.correct_answer is None
            &&& s.explanation is None
        },
        Some(q) => {
            let letters = crate::shuffle::sorted_keys(q.options@);
            &&& s.current_question matches Some(g) && g.id == q.id && g.domain == q.domain
                && g.scenario == q.scenario && g.question == q.question && g.options@ == q.options@
            &&& s.vote_counts@.len() == letters.len()
            &&& forall|k: int|
                0 <= k < letters.len() ==> (#[trigger] s.vote_counts@[k]).answer@ == letters[k]
                    && s.vote_counts@[k].count == votes_for(counts, letters[k])
            &&& s.total_votes == votes_total(counts, letters)
            &&& s.selected_answer == selected
            &&& (revealed ==> s.correct_answer == Some(q.answer))
            &&& (!revealed ==> s.correct_answer is None)
            &&& (revealed && include_host_fields ==> s.explanation == Some(q.explanation))
            &&& (!(revealed && include_host_fields) ==> s.explanation is None)
        },
    }
}

/// The state a room shows. The vote counts cover every option letter of
/// the current question, in letter order, with zero for letters nobody
/// chose; the answer appears only once the room is revealed, and the
/// explanation only then and only for the host.
pub fn build_group_room_state(
    room: &GroupRoomRecord,
    card_ids: &Vec<String>,
    current: Option<&Question>,
    counts: &Vec<(String, u32)>,
    selected: Option<String>,
    include_host_fields: bool,
) -> (s: GroupRoomState)
    requires
        current matches Some(q) ==> keys_distinct(q.options@),
        current matches Some(q) ==> votes_total(counts@, crate::shuffle::sorted_keys(q.options@))
            <= u32::MAX,
    ensures
        room_state_of(
            s,
            *room,
            views(card_ids@),
            match current {
                Some(q) => Some(*q),
                None => None,
            },
            counts@,
            selected,
            include_host_fields,
        ),
{
    let revealed = crate::text::str_eq(room.status.as_str(), "revealed");
    match current {
        None => GroupRoomState {
            code: room.code.clone(),
            cert: room.cert.clone(),
            status: room.status.clone(),
            current_index: room.current_index,
            total_questions: card_ids.len(),
            current_question: None,
            vote_counts: Vec::new(),
            total_votes: 0,
            selected_answer: None,
            correct_answer: None,
            explanation: None,
        },
        Some(q) => {
            let letters = crate::shuffle::sorted_option_keys(&q.options);
            let ghost lv = letters@.map_values(|x: String| x@);
            let mut vote_counts: Vec<GroupVoteCount> = Vec::new();
            let mut total: u32 = 0;
            let mut k: usize = 0;
            while k < letters.len()
                invariant
                    0 <= k <= letters@.len(),
                    lv == letters@.map_values(|x: String| x@),
                    votes_total(counts@, lv) <= u32::MAX,
                    vote_counts@.len() == k,
                    total == votes_total(counts@, lv.take(k as int)),
                    forall|a: int|
                        0 <= a < k ==> (#[trigger] vote_counts@[a]).answer@ == lv[a]
                            && vote_counts@[a].count == votes_for(counts@, lv[a]),
                decreases letters.len() - k,
            {
                let c = votes_for_exec(counts, &letters[k]);
                assert(lv.take(k + 1).drop_last() =~= lv.take(k as int));
                assert(lv.take(k + 1).last() == letters@[k as int]@);
                proof {
                    lemma_votes_total_prefix(counts@, lv, k + 1);
                }
                total = total + c;
                vote_counts.push(GroupVoteCount { answer: letters[k].clone(), count: c });
                k += 1;
            }
            assert(lv.take(lv.len() as int) =~= lv);
            GroupRoomState {
                code: room.code.clone(),
                cert: room.cert.clone(),
                status: room.status.clone(),
                current_index: room.current_index,
                total_questions: card_ids.len(),
                current_question: Some(group_question(q)),
                vote_counts,
                total_votes: total,
                selected_answer: selected,
                correct_answer: if revealed {
                    Some(q.answer.clone())
                } else {
                    None
                },
                explanation: if revealed && include_host_fields {
                    Some(q.explanation.clone())
                } else {
                    None
                },
            }
        },
    }
}

proof fn lemma_votes_total_prefix(counts: Seq<(String, u32)>, answers: Seq<Seq<char>>, i: int)
    requires
        0 <= i <= answers.len(),
    ensures
        votes_total(counts, answers.take(i)) <= votes_total(counts, answers),
    decreases answers.len() - i,
{
    if i < answers.len() {
        lemma_votes_total_prefix(counts, answers, i + 1);
        assert(answers.take(i + 1).drop_last() =~= answers.take(i));
    } else {
        assert(answers.take(i) =~= answers);
    }
}

/// What an error carries: its HTTP status and message.
pub open spec fn fault(e: ApiError) -> (u16, Seq<char>) {
    (e.status, e.message@)
}

/// `r` is `room` with its position set to `index` and its status to
/// `status`, everything else kept.
pub open spec fn moved_to(r: GroupRoomRecord, room: GroupRoomRecord, index: int, status: Seq<char>) -> bool {
    &&& r.code == room.code
    &&& r.host_token == room.host_token
    &&& r.cert == room.cert
    &&& r.card_ids_json == room.card_ids_json
    &&& r.current_index == index
    &&& r.status@ == status
}

/// The room with a new position and status.
fn room_moved_to(room: &GroupRoomRecord, index: usize, status: &str) -> (r: GroupRoomRecord)
    ensures
        moved_to(r, *room, index as int, status@),
{
    GroupRoomRecord {
        code: room.code.clone(),
        host_token: room.host_token.clone(),
        cert: room.cert.clone(),
        card_ids_json: room.card_ids_json.clone(),
        current_index: index,
        status: crate::text::to_owned(status),
    }
}

/// Why a host command other than ending is refused: a wrong token first,
/// then a room that has ended.
pub open spec fn host_step_fault(room: GroupRoomRecord, token: Option<Seq<char>>) -> Option<(u16, Seq<char>)> {
    if !is_host(room, token) {
        Some((403u16, "Invalid group host token"@))
    } else if room.status@ == "ended"@ {
        Some((400u16, "Group room has ended"@))
    } else {
        None
    }
}

/// The host shows the answer of the current question.
pub fn group_reveal(room: &GroupRoomRecord, token: Option<&str>) -> (r: Result<GroupRoomRecord, ApiError>)
    ensures
        r is Ok <==> host_step_fault(*room, crate::questions::opt_view(token)) is None,
        r matches Err(e) ==> Some(fault(e)) == host_step_fault(*room, crate::questions::opt_view(token)),
        r matches Ok(n) ==> moved_to(n, *room, room.current_index as int, "revealed"@),
{
    match require_group_host(room, token) {
        Ok(()) => {},
        Err(e) => return Err(e),
    }
    if crate::text::str_eq(room.status.as_str(), "ended") {
        return Err(ApiError::bad_request("Group room has ended"));
    }
    Ok(room_moved_to(room, room.current_index, "revealed"))
}

/// The position after the current question of a room of `len` questions:
/// one further, held at the last question once the list is done.
pub open spec fn next_index(current: int, len: int) -> int {
    if current + 1 < len {
        current + 1
    } else if len > 0 {
        len - 1
    } else {
        0
    }
}

/// The status after moving on: the room ends when it has moved past its
/// last question.
pub open spec fn next_status(current: int, len: int) -> Seq<char> {
    if current + 1 >= len {
        "ended"@
    } else {
        "voting"@
    }
}

/// The host moves the room on to the next question, which opens voting,
/// or ends the room after the last one.
pub fn group_next(room: &GroupRoomRecord, token: Option<&str>) -> (r: Result<GroupRoomRecord, ApiError>)
    requires
        room.current_index < usize::MAX,
    ensures
        host_step_fault(*room, crate::questions::opt_view(token)) is Some ==> (r matches Err(e)
            && Some(fault(e)) == host_step_fault(*room, crate::questions::opt_view(token))),
        host_step_fault(*room, crate::questions::opt_view(token)) is None ==> match json_string_list(room.card_ids_json@) {
            None => r matches Err(e) && fault(e) == (500u16, "deserialize group room card ids"@),
            Some(ids) => r matches Ok(n) && moved_to(
                n,
                *room,
                next_index(room.current_index as int, ids.len() as int),
                next_status(room.current_index as int, ids.len() as int),
            ),
        },
{
    match require_group_host(room, token) {
        Ok(()) => {},
        Err(e) => return Err(e),
    }
    if crate::text::str_eq(room.status.as_str(), "ended") {
        return Err(ApiError::bad_request("Group room has ended"));
    }
    let ids = match parse_card_ids(room.card_ids_json.as_str(), "deserialize group room card ids") {
        Ok(v) => v,
        Err(e) => return Err(e),
    };
    let next = room.current_index + 1;
    let status = if next >= ids.len() {
        "ended"
    } else {
        "voting"
    };
    let last = if ids.len() > 0 {
        ids.len() - 1
    } else {
        0
    };
    let index = if next < last {
        next
    } else {
        last
    };
    proof {
        reveal_strlit("ended");
        reveal_strlit("voting");
    }
    Ok(room_moved_to(room, index, status))
}

/// The host ends the room, from any state.
pub fn group_end(room: &GroupRoomRecord, token: Option<&str>) -> (r: Result<GroupRoomRecord, ApiError>)
    ensures
        r is Ok <==> is_host(*room, crate::questions::opt_view(token)),
        r matches Err(e) ==> fault(e) == (403u16, "Invalid group host token"@),
        r matches Ok(n) ==> moved_to(n, *room, room.current_index as int, "ended"@),
{
    match require_group_host(room, token) {
        Ok(()) => {},
        Err(e) => return Err(e),
    }
    Ok(room_moved_to(room, room.current_index, "ended"))
}

/// Votes are taken only while the room is voting.
pub fn check_voting_open(room: &GroupRoomRecord) -> (r: Result<(), ApiError>)
    ensures
        r is Ok <==> room.status@ == "voting"@,
        r matches Err(e) ==> fault(e) == (400u16, "Voting is closed for this question"@),
{
    if !crate::text::str_eq(room.status.as_str(), "voting") {
        return Err(ApiError::bad_request("Voting is closed for this question"));
    }
    Ok(())
}

/// The first question with id `id`.
pub open spec fn first_question_by_id(qs: Seq<Question>, id: Seq<char>) -> Option<Question>
    decreases qs.len(),
{
    if qs.len() == 0 {
        None
    } else if qs[0].id@ == id {
        Some(qs[0])
    } else {
        first_question_by_id(qs.drop_first(), id)
    }
}

/// Finds the first question with id `id`.
fn find_first_question<'a>(qs: &'a Vec<Question>, id: &str) -> (r: Option<&'a Question>)
    ensures
        r matches Some(q) ==> first_question_by_id(qs@, id@) == Some(*q),
        r is None ==> first_question_by_id(qs@, id@) is None,
{
    let mut i: usize = 0;
    assert(qs@.skip(0) =~= qs@);
    while i < qs.len()
        invariant
            0 <= i <= qs@.len(),
            first_question_by_id(qs@, id@) == first_question_by_id(qs@.skip(i as int), id@),
        decreases qs.len() - i,
    {
        assert(qs@.skip(i as int)[0] == qs@[i as int]);
        assert(qs@.skip(i as int).drop_first() =~= qs@.skip(i + 1));
        if crate::text::str_eq(qs[i].id.as_str(), id) {
            return Some(&qs[i]);
        }
        i += 1;
    }
    None
}

/// A participant id as given, trimmed; a blank one is refused.
pub fn check_participant(participant_id: &str) -> (r: Result<String, ApiError>)
    ensures
        r is Ok <==> trimmed(participant_id@).len() > 0,
        r matches Ok(p) ==> p@ == trimmed(participant_id@),
        r matches Err(e) ==> fault(e) == (400u16, "participantId is required"@),
{
    let t = trim(participant_id);
    if t.is_empty() {
        return Err(ApiError::bad_request("participantId is required"));
    }
    Ok(crate::text::to_owned(t))
}

/// A vote to record: the question it is on, who cast it and the answer.
#[derive(Debug, PartialEq, Eq)]
pub struct GroupVote {
    pub card_id: String,
    pub participant_id: String,
    pub answer: String,
}

/// The answer letter a vote normalizes to, when it names an option of `q`.
pub open spec fn valid_answer(q: Question, answer: Seq<char>) -> bool {
    let a = ascii_upper(trimmed(answer));
    &&& vstd::utf8::encode_utf8(a).len() as usize == 1
    &&& has_key(q.options@, a)
}

/// What a vote on `room` comes to, with the room's questions `qs`: the
/// question id, the participant and the answer to record, or the error,
/// checked in this order: a blank participant, voting closed, unreadable
/// card ids, no current question, a current question missing from the
/// bank, an answer that names no option.
pub open spec fn vote_outcome(
    room: GroupRoomRecord,
    qs: Seq<Question>,
    participant_id: Seq<char>,
    answer: Seq<char>,
) -> Result<(Seq<char>, Seq<char>, Seq<char>), (u16, Seq<char>)> {
    if trimmed(participant_id).len() == 0 {
        Err((400u16, "participantId is required"@))
    } else if room.status@ != "voting"@ {
        Err((400u16, "Voting is closed for this question"@))
    } else {
        match json_string_list(room.card_ids_json@) {
            None => Err((500u16, "deserialize group room card ids"@)),
            Some(ids) => if room.current_index >= ids.len() {
                Err((400u16, "Group room has no current question"@))
            } else {
                let card_id = ids[room.current_index as int];
                match first_question_by_id(qs, card_id) {
                    None => Err((400u16, "Current group question is unavailable"@)),
                    Some(q) => if valid_answer(q, answer) {
                        Ok((card_id, trimmed(participant_id), ascii_upper(trimmed(answer))))
                    } else {
                        Err((400u16, "Answer is not valid for this question"@))
                    },
                }
            },
        }
    }
}

/// Decides a participant's vote on the room's current question.
pub fn plan_group_vote(room: &GroupRoomRecord, bank: &Bank, participant_id: &str, answer: &str) -> (r: Result<GroupVote, ApiError>)
    ensures
        match vote_outcome(*room, bank.questions@, participant_id@, answer@) {
            Ok((c, p, a)) => r matches Ok(v) && v.card_id@ == c && v.participant_id@ == p && v.answer@ == a,
            Err(f) => r matches Err(e) && fault(e) == f,
        },
{
    let participant = match check_participant(participant_id) {
        Ok(p) => p,
        Err(e) => return Err(e),
    };
    match check_voting_open(room) {
        Ok(()) => {},
        Err(e) => return Err(e),
    }
    let ids = match parse_card_ids(room.card_ids_json.as_str(), "deserialize group room card ids") {
        Ok(v) => v,
        Err(e) => return Err(e),
    };
    if room.current_index >= ids.len() {
        return Err(ApiError::bad_request("Group room has no current question"));
    }
    let card_id = ids[room.current_index].clone();
    assert(views(ids@)[room.current_index as int] == card_id@);
    let question = match find_first_question(&bank.questions, card_id.as_str()) {
        Some(q) => q,
        None => return Err(ApiError::bad_request("Current group question is unavailable")),
    };
    let answer = match validate_group_answer(answer, question) {
        Ok(a) => a,
        Err(e) => return Err(e),
    };
    Ok(GroupVote { card_id, participant_id: participant, answer })
}

/// An ended room is final: the host can neither reveal its answer nor move
/// it on, no vote is taken, and it shows no current question. A host
/// command goes through only for the holder of the host token.
pub proof fn lemma_ended_room_is_final(
    room: GroupRoomRecord,
    qs: Seq<Question>,
    token: Option<Seq<char>>,
    participant_id: Seq<char>,
    answer: Seq<char>,
    ids: Seq<Seq<char>>,
)
    requires
        room.status@ == "ended"@,
    ensures
        host_step_fault(room, token) is Some,
        is_host(room, token) ==> host_step_fault(room, token) == Some((400u16, "Group room has ended"@)),
        vote_outcome(room, qs, participant_id, answer) is Err,
        current_card_id(room, ids) is None,
{
    reveal_strlit("ended");
    reveal_strlit("voting");
    assert("ended"@[0] != "voting"@[0]);
}

/// Only the host steers a room: a command that is not refused was given
/// with the room's host token.
pub proof fn lemma_only_host_steers(room: GroupRoomRecord, token: Option<Seq<char>>)
    ensures
        host_step_fault(room, token) is None ==> is_host(room, token),
{
}

/// A vote is taken only while the room is voting, on the question the
/// room is on.
pub proof fn lemma_votes_only_while_voting(
    room: GroupRoomRecord,
    qs: Seq<Question>,
    participant_id: Seq<char>,
    answer: Seq<char>,
)
    ensures
        vote_outcome(room, qs, participant_id, answer) is Ok ==> {
            &&& room.status@ == "voting"@
            &&& json_string_list(room.card_ids_json@) matches Some(ids)
            &&& current_card_id(room, ids) == Some(vote_outcome(room, qs, participant_id, answer)->Ok_0.0)
        },
{
    reveal_strlit("ended");
    reveal_strlit("voting");
    if vote_outcome(room, qs, participant_id, answer) is Ok {
        assert("ended"@[0] != "voting"@[0]);
    }
}

/// Moving on keeps a room with questions on one of them, and the room ends
/// exactly when it moves past its last question.
pub proof fn lemma_next_stays_on_a_question(current: int, len: int)
    requires
        0 <= current,
        0 < len,
    ensures
        0 <= next_index(current, len) < len,
        next_status(current, len) == "ended"@ <==> current + 1 >= len,
{
    reveal_strlit("ended");
    reveal_strlit("voting");
    assert("ended"@[0] != "voting"@[0]);
}

/// A number drawn at random below `n` (`rand::random_range(0..n)`); which
/// one is left to chance.
#[verifier::external_body]
fn random_below(n: usize) -> (r: usize)
    requires
        n > 0,
    ensures
        r < n,
{
    rand::random_range(0..n)
}

/// The characters of room codes: digits and capitals, without those that
/// are easy to confuse (0, 1, I, O).
pub open spec fn group_code_alphabet() -> Seq<char> {
    "23456789ABCDEFGHJKLMNPQRSTUVWXYZ"@
}

/// The characters of host tokens: digits and ASCII letters.
pub open spec fn group_token_alphabet() -> Seq<char> {
    "0123456789abcdefghijklmnopqrstuvwxyzABCDEFGHIJKLMNOPQRSTUVWXYZ"@
}

/// `len` characters drawn at random from `alphabet`.
fn random_text(alphabet: &str, len: usize) -> (r: String)
    requires
        alphabet@.len() > 0,
    ensures
        r@.len() == len,
        forall|i: int| 0 <= i < len ==> alphabet@.contains(#[trigger] r@[i]),
{
    let n = alphabet.unicode_len();
    let mut r = String::new();
    let mut k: usize = 0;
    while k < len
        invariant
            0 <= k <= len,
            n == alphabet@.len(),
            alphabet@.len() > 0,
            r@.len() == k,
            forall|i: int| 0 <= i < k ==> alphabet@.contains(#[trigger] r@[i]),
        decreases len - k,
    {
        let j = random_below(n);
        let c = alphabet.get_char(j);
        crate::text::push_char(&mut r, c);
        assert(r@[k as int] == alphabet@[j as int]);
        k += 1;
    }
    r
}

/// A new room code: six random characters of the code alphabet.
pub fn random_group_code() -> (r: String)
    ensures
        r@.len() == 6,
        forall|i: int| 0 <= i < 6 ==> group_code_alphabet().contains(#[trigger] r@[i]),
{
    let alphabet = "23456789ABCDEFGHJKLMNPQRSTUVWXYZ";
    proof {
        reveal_strlit("23456789ABCDEFGHJKLMNPQRSTUVWXYZ");
    }
    random_text(alphabet, 6)
}

/// A new host token: 32 random characters of the token alphabet.
pub fn random_group_token() -> (r: String)
    ensures
        r@.len() == 32,
        forall|i: int| 0 <= i < 32 ==> group_token_alphabet().contains(#[trigger] r@[i]),
{
    let alphabet = "0123456789abcdefghijklmnopqrstuvwxyzABCDEFGHIJKLMNOPQRSTUVWXYZ";
    proof {
        reveal_strlit("0123456789abcdefghijklmnopqrstuvwxyzABCDEFGHIJKLMNOPQRSTUVWXYZ");
    }
    random_text(alphabet, 32)
}

/// The ids of the questions, in bank order.
pub open spec fn question_ids(qs: Seq<Question>) -> Seq<Seq<char>> {
    qs.map_values(|q: Question| q.id@)
}

/// A new room's question order: every question of the bank once, in random
/// order, with that order written out for storage. A bank without
/// questions has no room.
pub fn plan_group_room(bank: &Bank) -> (r: Result<(Vec<String>, String), ApiError>)
    ensures
        bank.questions@.len() == 0 ==> (r matches Err(e) && fault(e) == (400u16, "Question bank has no questions"@)),
        bank.questions@.len() > 0 ==> r is Ok,
        r matches Ok(p) ==> {
            &&& views(p.0@).to_multiset() == question_ids(bank.questions@).to_multiset()
            &&& p.1@ == crate::api::json_of_strings(views(p.0@))
            &&& json_string_list(p.1@) == Some(views(p.0@))
        },
{
    if bank.questions.len() == 0 {
        return Err(ApiError::bad_request("Question bank has no questions"));
    }
    let mut ids: Vec<String> = Vec::new();
    let mut i: usize = 0;
    while i < bank.questions.len()
        invariant
            0 <= i <= bank.questions@.len(),
            views(ids@) == question_ids(bank.questions@.take(i as int)),
        decreases bank.questions.len() - i,
    {
        let ghost prev = ids@;
        let id = bank.questions[i].id.clone();
        ids.push(id);
        assert(ids@ =~= prev.push(id));
        assert(views(prev.push(id)) =~= views(prev).push(id@));
        assert(bank.questions@.take(i + 1) =~= bank.questions@.take(i as int).push(bank.questions@[i as int]));
        assert(question_ids(bank.questions@.take(i + 1)) =~= question_ids(bank.questions@.take(i as int)).push(bank.questions@[i as int].id@));
        i += 1;
    }
    assert(bank.questions@.take(i as int) =~= bank.questions@);
    let ghost before = ids@;
    crate::api::shuffle_in_place(&mut ids);
    proof {
        crate::api::lemma_map_keeps_multiset(ids@, before, |x: String| x@);
    }
    let json = crate::api::card_ids_json(&ids);
    Ok((ids, json))
}


/// A room that has not ended shows the card at its position while the
/// position is inside its card list, whether it is voting or revealed; an
/// ended room, or one past its list, shows none.
pub proof fn lemma_room_shows_card_at_its_index(room: GroupRoomRecord, ids: Seq<Seq<char>>)
    ensures
        room.status@ != "ended"@ && room.current_index < ids.len() ==> current_card_id(room, ids)
            == Some(ids[room.current_index as int]),
        room.status@ == "revealed"@ && room.current_index < ids.len() ==> current_card_id(room, ids)
            == Some(ids[room.current_index as int]),
        room.status@ == "ended"@ || room.current_index >= ids.len() ==> current_card_id(room, ids) is None,
{
    reveal_strlit("ended");
    reveal_strlit("revealed");
    if room.status@ == "revealed"@ {
        assert(room.status@[0] != "ended"@[0]);
    }
}


/// Revealing shows the answer and the vote totals: a revealed room's view
/// of its current question carries the question's answer, one count per
/// option letter and their total; the explanation only for the host. While
/// voting, neither answer nor explanation is shown.
pub proof fn lemma_reveal_shows_answer(
    s: GroupRoomState,
    room: GroupRoomRecord,
    ids: Seq<Seq<char>>,
    q: Question,
    counts: Seq<(String, u32)>,
    selected: Option<String>,
    include_host_fields: bool,
)
    requires
        room_state_of(s, room, ids, Some(q), counts, selected, include_host_fields),
    ensures
        s.current_question matches Some(g) && g.id == q.id,
        s.vote_counts@.len() == crate::shuffle::sorted_keys(q.options@).len(),
        room.status@ == "revealed"@ ==> s.correct_answer == Some(q.answer),
        room.status@ == "revealed"@ && include_host_fields ==> s.explanation == Some(q.explanation),
        room.status@ == "voting"@ ==> s.correct_answer is None && s.explanation is None,
        !include_host_fields ==> s.explanation is None,
{
    reveal_strlit("revealed");
    reveal_strlit("voting");
    if room.status@ == "voting"@ {
        assert(room.status@[0] != "revealed"@[0]);
    }
}

} // verus!
