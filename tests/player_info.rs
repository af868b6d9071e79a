use source_server_cli::cursor::{ByteArrayWithExtraction, DecodeError};
use source_server_cli::player_info::{
    PlayerInfo, PlayersInfo, PLAYER_INFO_RETURN_COMMAND, PLAYER_NAME_MAX_SIZE,
};

fn make_player_data_bytes(index: u8, name: &str, score: u64, duration: f32) -> Vec<u8> {
    let mut player_data = vec![index];
    player_data.extend(name.as_bytes());
    player_data.push(0x00);
    player_data.extend(score.to_le_bytes());
    player_data.extend(duration.to_le_bytes());
    player_data
}

fn make_message_from_players(players: &[PlayerInfo]) -> Vec<u8> {
    let num_players = players.len();
    assert!(num_players <= u8::MAX as usize);
    let mut payload = vec![PLAYER_INFO_RETURN_COMMAND, num_players as u8];
    for player in players {
        payload.extend(make_player_data_bytes(
            0x00,
            &player.name,
            player.score,
            player.duration as f32,
        ));
    }
    payload
}

#[test]
fn from_bytes_should_return_error_when_no_bytes_provided() {
    let input_bytes: [u8; 0] = [];
    let result = PlayersInfo::from_bytes(&input_bytes);
    assert!(result.is_err())
}

#[test]
fn from_bytes_should_return_error_when_header_has_invalid_command_flag() {
    let invalid_return_command_byte = PLAYER_INFO_RETURN_COMMAND + 1;
    let payload = [invalid_return_command_byte];
    let result = PlayersInfo::from_bytes(&payload);
    assert!(result.is_err());
}

#[test]
fn from_bytes_should_return_error_when_missing_player_count() {
    let payload = [PLAYER_INFO_RETURN_COMMAND];
    let result = PlayersInfo::from_bytes(&payload);
    assert!(result.is_err());
}

#[test]
fn from_bytes_should_return_empty_player_list_when_playercount_is_zero() {
    let payload = [PLAYER_INFO_RETURN_COMMAND, 0x00];
    let result = PlayersInfo::from_bytes(&payload);
    assert!(result.is_ok_and(|players_info| players_info.players.is_empty()));
}

#[test]
fn from_bytes_should_return_error_when_remaining_bytes_after_player_count_chunks() {
    let mut payload: Vec<u8> = vec![PLAYER_INFO_RETURN_COMMAND, 0x01];
    let player_a_data = make_player_data_bytes(0, "foo", 10, 0.0);
    let player_b_data = make_player_data_bytes(1, "bar", 10, 0.0);
    payload.extend(player_a_data);
    payload.extend(player_b_data);
    let result = PlayersInfo::from_bytes(payload.as_slice());
    assert!(result.is_err());
}

#[test]
fn from_bytes_should_return_all_players_in_payload() {
    let payload = make_message_from_players(&[
        PlayerInfo { name: "bar".to_string(), score: 10, duration: 10 },
        PlayerInfo { name: "foo".to_string(), score: 10, duration: 10 },
    ]);
    let result = PlayersInfo::from_bytes(payload.as_slice());
    assert!(result.is_ok());
    let player_info = result.unwrap();
    assert!(player_info.players.len() == 2);
}

#[test]
fn from_bytes_should_return_error_when_bytearray_size_doesnt_match_zero_playercount() {
    let payload = [PLAYER_INFO_RETURN_COMMAND, 0x00, 0x01];
    let result = PlayersInfo::from_bytes(&payload);
    assert!(result.is_err());
}

#[test]
fn extract_string_from_bytes_should_return_error_for_empty_bytearray() {
    let bytes: [u8; 0] = [];
    let mut byte_array = ByteArrayWithExtraction::new(&bytes);
    let max_size_greater_than_zero: usize = 1;
    let extracted_string = byte_array.extract_string(max_size_greater_than_zero);
    assert!(extracted_string.is_err());
}

#[test]
fn extract_string_from_bytes_should_return_empty_string_for_bytearray_of_only_null_terminator() {
    let bytes: [u8; 1] = [0x00];
    let mut byte_array = ByteArrayWithExtraction::new(&bytes);
    let max_size_greater_than_1: usize = 2;
    let extracted_string = byte_array.extract_string(max_size_greater_than_1);
    assert!(extracted_string.is_ok());
    assert_eq!(extracted_string.unwrap(), "\0");
}

#[test]
fn extract_string_from_bytes_should_return_error_if_no_string_found_in_bytearray() {
    let string_without_null_terminator: [u8; 2] = [b'a', b'b'];
    let max_size_larger_than_string_length: usize = string_without_null_terminator.len() + 1;
    let mut byte_array = ByteArrayWithExtraction::new(&string_without_null_terminator);
    let extracted_string = byte_array.extract_string(max_size_larger_than_string_length);
    assert!(extracted_string.is_err());
}

#[test]
fn extract_string_from_bytes_should_return_error_if_no_string_found_in_bytearray_before_max_size() {
    let string_without_null_terminator: [u8; 2] = [b'a', b'b'];
    let max_size_smaller_than_string_length: usize = string_without_null_terminator.len() - 1;
    let mut byte_array = ByteArrayWithExtraction::new(&string_without_null_terminator);
    let extracted_string = byte_array.extract_string(max_size_smaller_than_string_length);
    assert!(extracted_string.is_err());
}

#[test]
fn extract_string_from_bytes_should_return_same_string_as_input() {
    let input_string: &str = "Hello World\0";
    let input_bytes = input_string.as_bytes();
    let mut byte_array = ByteArrayWithExtraction::new(input_bytes);
    let max_size_longer_than_string_length: usize = input_string.len() + 1;
    let extracted_string = byte_array.extract_string(max_size_longer_than_string_length);
    assert!(extracted_string.is_ok());
    let result_string = extracted_string.unwrap();
    assert_eq!(result_string, input_string);
}

#[test]
fn name_constants_match_protocol() {
    assert_eq!(PLAYER_INFO_RETURN_COMMAND, 0x44);
    assert_eq!(PLAYER_NAME_MAX_SIZE, 32);
}

#[test]
fn extract_string_error_is_unterminated_string() {
    let bytes = [b'a', b'b'];
    let mut byte_array = ByteArrayWithExtraction::new(&bytes);
    assert_eq!(byte_array.extract_string(8).err(), Some(DecodeError::UnterminatedString));
}
