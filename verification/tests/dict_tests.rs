use koe_core::dict::{
    dict_key, get_all, insert, interpret_insert_response, interpret_remove_response, remove,
    Dictionary, GetAllOption, InsertOption, InsertResponse, RemoveOption, RemoveResponse,
    StoreError,
};

fn opt(word: &str, read_as: &str) -> InsertOption {
    InsertOption {
        guild_id: "1".to_string(),
        word: word.to_string(),
        read_as: read_as.to_string(),
    }
}

#[test]
fn insert_uniqueness() {
    let mut d = Dictionary::new();
    let r1 = insert(&mut d, opt("Rust", "ラスト"));
    assert_eq!(r1, InsertResponse::Success);
    let r2 = insert(&mut d, opt("Rust", "べつのよみ"));
    assert_eq!(r2, InsertResponse::WordAlreadyExists);
    let all = get_all(
        &d,
        GetAllOption {
            guild_id: "1".to_string(),
        },
    );
    assert_eq!(all, vec![("Rust".to_string(), "ラスト".to_string())]);
}

#[test]
fn remove_existing_word() {
    let mut d = Dictionary::new();
    insert(&mut d, opt("a", "b"));
    insert(&mut d, opt("c", "d"));
    let r = remove(
        &mut d,
        RemoveOption {
            guild_id: "1".to_string(),
            word: "a".to_string(),
        },
    );
    assert_eq!(r, RemoveResponse::Success);
    let all = get_all(
        &d,
        GetAllOption {
            guild_id: "1".to_string(),
        },
    );
    assert_eq!(all, vec![("c".to_string(), "d".to_string())]);
}

#[test]
fn remove_missing_word_is_noop() {
    let mut d = Dictionary::new();
    insert(&mut d, opt("a", "b"));
    let r = remove(
        &mut d,
        RemoveOption {
            guild_id: "1".to_string(),
            word: "zzz".to_string(),
        },
    );
    assert_eq!(r, RemoveResponse::WordDoesNotExist);
    let all = get_all(
        &d,
        GetAllOption {
            guild_id: "1".to_string(),
        },
    );
    assert_eq!(all, vec![("a".to_string(), "b".to_string())]);
}

#[test]
fn empty_dictionary_yields_empty_mapping() {
    let d = Dictionary::new();
    let all = get_all(
        &d,
        GetAllOption {
            guild_id: "42".to_string(),
        },
    );
    assert!(all.is_empty());
}

#[test]
fn dict_key_format() {
    assert_eq!(dict_key("123"), "guild:123:dict");
    assert_eq!(dict_key(""), "guild::dict");
}

#[test]
fn insert_response_codes() {
    assert_eq!(
        interpret_insert_response(0),
        Ok(InsertResponse::WordAlreadyExists)
    );
    assert_eq!(interpret_insert_response(1), Ok(InsertResponse::Success));
    assert_eq!(
        interpret_insert_response(7),
        Err(StoreError::ProtocolInvariantViolation)
    );
}

#[test]
fn remove_response_codes() {
    assert_eq!(
        interpret_remove_response(0),
        Ok(RemoveResponse::WordDoesNotExist)
    );
    assert_eq!(interpret_remove_response(1), Ok(RemoveResponse::Success));
    assert_eq!(
        interpret_remove_response(2),
        Err(StoreError::ProtocolInvariantViolation)
    );
}
