use vstd::prelude::*;
use crate::cursor::{
    ByteArrayWithExtraction, DecodeError, le_u32_value, le_u64_value, scan_end, terminator_at,
    utf8_lossy,
};
use crate::duration::{duration_from_f32_bits, duration_in_range, f32_bits_as_i64};

verus! {

/// The command byte that marks a player-info response.
pub const PLAYER_INFO_RETURN_COMMAND: u8 = 0x44;

/// How many bytes, terminator included, a player name may take.
pub const PLAYER_NAME_MAX_SIZE: usize = 32;

/// One connected player.
pub struct PlayerInfo {
    /// The name as sent, terminator included.
    pub name: String,
    pub score: u64,
    /// Time on the server, in whole seconds.
    pub duration: i64,
}

/// A player as a mathematical value: name, score and whole seconds.
pub type PlayerModel = (Seq<char>, u64, i64);

impl View for PlayerInfo {
    type V = PlayerModel;

    open spec fn view(&self) -> PlayerModel {
        (self.name@, self.score, self.duration)
    }
}

/// The players of a decoded response, in the order they were sent.
pub struct PlayersInfo {
    pub players: Vec<PlayerInfo>,
}

impl View for PlayersInfo {
    type V = Seq<PlayerModel>;

    open spec fn view(&self) -> Seq<PlayerModel> {
        self.players@.map_values(|p: PlayerInfo| p@)
    }
}

/// One player record read at `pos` of `b`: the player and the offset just
/// past the record, or the first failure met in field order.
pub open spec fn parse_record(b: Seq<u8>, pos: int) -> Result<(PlayerModel, int), DecodeError> {
    if pos >= b.len() {
        Err(DecodeError::Truncated)
    } else {
        let name_start = pos + 1;
        match terminator_at(b, name_start, scan_end(b, name_start, PLAYER_NAME_MAX_SIZE as int)) {
            None => Err(DecodeError::UnterminatedString),
            Some(k) => {
                let score_at = k + 1;
                if score_at + 12 > b.len() {
                    Err(DecodeError::Truncated)
                } else {
                    let bits = le_u32_value(b.subrange(score_at + 8, score_at + 12)) as u32;
                    let secs = f32_bits_as_i64(bits);
                    if !duration_in_range(secs) {
                        Err(DecodeError::InvalidDuration)
                    } else {
                        Ok(
                            (
                                (
                                    utf8_lossy(b.subrange(name_start, k + 1)),
                                    le_u64_value(b.subrange(score_at, score_at + 8)) as u64,
                                    secs as i64,
                                ),
                                score_at + 12,
                            ),
                        )
                    }
                }
            },
        }
    }
}

/// `n` player records read one after another from `pos` of `b`.
pub open spec fn parse_records(b: Seq<u8>, pos: int, n: nat) -> Result<
    (Seq<PlayerModel>, int),
    DecodeError,
>
    decreases n,
{
    if n == 0 {
        Ok((Seq::empty(), pos))
    } else {
        match parse_records(b, pos, (n - 1) as nat) {
            Err(e) => Err(e),
            Ok((players, p)) => match parse_record(b, p) {
                Err(e) => Err(e),
                Ok((player, q)) => Ok((players.push(player), q)),
            },
        }
    }
}

/// What a whole response buffer decodes to.
pub open spec fn decode_response(b: Seq<u8>) -> Result<Seq<PlayerModel>, DecodeError> {
    if b.len() < 2 {
        Err(DecodeError::Truncated)
    } else if b[0] != PLAYER_INFO_RETURN_COMMAND {
        Err(DecodeError::InvalidCommand)
    } else if b[1] == 0 && b.len() > 2 {
        Err(DecodeError::TrailingData)
    } else if b[1] != 0 && b.len() == 2 {
        Err(DecodeError::Truncated)
    } else {
        match parse_records(b, 2, b[1] as nat) {
            Err(e) => Err(e),
            Ok((players, end)) => if end == b.len() {
                Ok(players)
            } else {
                Err(DecodeError::TrailingData)
            },
        }
    }
}

/// Once reading records fails, reading more of them fails the same way.
pub proof fn lemma_parse_records_failure_persists(b: Seq<u8>, pos: int, m: nat, n: nat)
    requires
        m <= n,
        parse_records(b, pos, m) is Err,
    ensures
        parse_records(b, pos, n) == parse_records(b, pos, m),
    decreases n,
{
    if m < n {
        lemma_parse_records_failure_persists(b, pos, m, (n - 1) as nat);
    }
}

/// Reading `n` records successfully yields `n` players.
pub proof fn lemma_parse_records_len(b: Seq<u8>, pos: int, n: nat)
    ensures
        parse_records(b, pos, n) matches Ok((players, _)) ==> players.len() == n,
    decreases n,
{
    if n > 0 {
        lemma_parse_records_len(b, pos, (n - 1) as nat);
    }
}

/// A name whose scan window holds no zero byte makes the record fail as
/// unterminated, whatever lies past the window.
pub proof fn lemma_unterminated_name(b: Seq<u8>, pos: int)
    requires
        0 <= pos < b.len(),
        forall|j: int|
            pos + 1 <= j < scan_end(b, pos + 1, PLAYER_NAME_MAX_SIZE as int) ==> b[j] != 0,
    ensures
        parse_record(b, pos) == Err::<(PlayerModel, int), DecodeError>(
            DecodeError::UnterminatedString,
        ),
{
    crate::cursor::lemma_terminator_at(b, pos + 1, scan_end(b, pos + 1, PLAYER_NAME_MAX_SIZE as int));
}

/// Decodes one player record at the read position: slot index, name,
/// score and duration, in that order.
pub fn extract_player(byte_array: &mut ByteArrayWithExtraction) -> (r: Result<
    PlayerInfo,
    DecodeError,
>)
    requires
        old(byte_array).wf(),
    ensures
        final(byte_array).wf(),
        final(byte_array).data() == old(byte_array).data(),
        match parse_record(old(byte_array).data(), old(byte_array).position()) {
            Ok((player, end)) => r matches Ok(p) && p@ == player && final(byte_array).position()
                == end,
            Err(e) => r == Err::<PlayerInfo, DecodeError>(e),
        },
{
    let ghost b = byte_array.data();
    let ghost pos = byte_array.position();
    proof {
        byte_array.lemma_wf();
    }
    let _slot = byte_array.extract_u8()?;
    let name = byte_array.extract_string(PLAYER_NAME_MAX_SIZE)?;
    proof {
        lemma_terminator_bounds(b, pos + 1);
    }
    let score = byte_array.extract_u64()?;
    let bits = byte_array.extract_f32_bits()?;
    let duration = duration_from_f32_bits(bits)?;
    Ok(PlayerInfo { name, score, duration })
}

proof fn lemma_terminator_bounds(b: Seq<u8>, from: int)
    requires
        0 <= from,
    ensures
        terminator_at(b, from, scan_end(b, from, PLAYER_NAME_MAX_SIZE as int)) matches Some(k)
            ==> from <= k < b.len(),
{
    crate::cursor::lemma_terminator_at(b, from, scan_end(b, from, PLAYER_NAME_MAX_SIZE as int));
}

impl PlayersInfo {
    /// Decodes a player-info response. Succeeds only where the buffer holds
    /// the marker, a count, and exactly that many well-formed records.
    pub fn from_bytes(bytes: &[u8]) -> (r: Result<PlayersInfo, DecodeError>)
        ensures
            match r {
                Ok(info) => decode_response(bytes@) == Ok::<Seq<PlayerModel>, DecodeError>(info@),
                Err(e) => decode_response(bytes@) == Err::<Seq<PlayerModel>, DecodeError>(e),
            },
            bytes@.len() < 2 ==> r matches Err(DecodeError::Truncated),
            bytes@.len() >= 2 && bytes@[0] != PLAYER_INFO_RETURN_COMMAND ==> r matches Err(
                DecodeError::InvalidCommand,
            ),
            r matches Ok(info) ==> info.players@.len() == bytes@[1],
    {
        if bytes.len() < 2 {
            return Err(DecodeError::Truncated);
        }
        let mut byte_array = ByteArrayWithExtraction::new(bytes);
        let command = byte_array.extract_u8()?;
        if command != PLAYER_INFO_RETURN_COMMAND {
            return Err(DecodeError::InvalidCommand);
        }
        let player_count = byte_array.extract_u8()?;
        if player_count != 0 && bytes.len() == 2 {
            return Err(DecodeError::Truncated);
        }
        if player_count == 0 && bytes.len() > 2 {
            return Err(DecodeError::TrailingData);
        }
        let mut players: Vec<PlayerInfo> = Vec::new();
        let mut done: u8 = 0;
        assert(players@.map_values(|p: PlayerInfo| p@) =~= Seq::<PlayerModel>::empty());
        while done < player_count
            invariant
                byte_array.wf(),
                byte_array.data() == bytes@,
                bytes@.len() >= 2,
                bytes@[0] == PLAYER_INFO_RETURN_COMMAND,
                player_count == 0 || bytes@.len() > 2,
                player_count == bytes@[1],
                done <= player_count,
                parse_records(bytes@, 2, done as nat) == Ok::<(Seq<PlayerModel>, int), DecodeError>(
                    (players@.map_values(|p: PlayerInfo| p@), byte_array.position()),
                ),
            decreases player_count - done,
        {
            let ghost before = players@.map_values(|p: PlayerInfo| p@);
            match extract_player(&mut byte_array) {
                Ok(player) => {
                    players.push(player);
                    assert(players@.map_values(|p: PlayerInfo| p@) =~= before.push(player@));
                },
                Err(e) => {
                    assert(parse_records(bytes@, 2, (done + 1) as nat) == Err::<
                        (Seq<PlayerModel>, int),
                        DecodeError,
                    >(e));
                    proof {
                        lemma_parse_records_failure_persists(
                            bytes@,
                            2,
                            (done + 1) as nat,
                            player_count as nat,
                        );
                    }
                    return Err(e);
                },
            }
            done = done + 1;
        }
        proof {
            lemma_parse_records_len(bytes@, 2, player_count as nat);
        }
        if !byte_array.exhausted() {
            return Err(DecodeError::TrailingData);
        }
        Ok(PlayersInfo { players })
    }
}

} // verus!
