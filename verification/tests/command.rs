use resp_kv::command::{invalid_expiration_message, Command, CommandError, SetExpiration};

#[test]
fn ping() {
    let input = vec!["ping".to_string()];
    let result = Command::try_from(input).unwrap();

    assert_eq!(result, Command::Ping);
}

#[test]
fn echo() {
    let input = vec!["echo".to_string(), "hey".to_string()];
    let result = Command::try_from(input).unwrap();

    assert_eq!(result, Command::Echo("hey".to_string()));
}

#[test]
fn set() {
    let input = vec!["set".to_string(), "key".to_string(), "val".to_string()];
    let result = Command::try_from(input).unwrap();

    assert_eq!(
        result,
        Command::SetValue(("key".to_string(), "val".to_string()))
    );
}

#[test]
fn get() {
    let key = "key";
    let input: Vec<String> = vec!["get".to_string(), key.to_string()];
    let result = Command::try_from(input).unwrap();

    assert_eq!(result, Command::Get(key.to_string()));
}

#[test]
fn verbs_match_without_regard_to_case() {
    let input = vec!["PiNg".to_string()];
    assert_eq!(Command::try_from(input), Ok(Command::Ping));

    let input = vec!["GET".to_string(), "k".to_string()];
    assert_eq!(Command::try_from(input), Ok(Command::Get("k".to_string())));
}

#[test]
fn set_with_expiry_takes_both_units() {
    let words = |unit: &str| {
        vec![
            "SET".to_string(),
            "k".to_string(),
            "v".to_string(),
            unit.to_string(),
            "50".to_string(),
        ]
    };
    assert_eq!(
        Command::try_from(words("px")),
        Ok(Command::SetWithExp {
            kv: ("k".to_string(), "v".to_string()),
            exp_type: SetExpiration::Px,
            ttl: "50".to_string(),
            options: None,
        })
    );
    assert_eq!(
        Command::try_from(words("EX")),
        Ok(Command::SetWithExp {
            kv: ("k".to_string(), "v".to_string()),
            exp_type: SetExpiration::Ex,
            ttl: "50".to_string(),
            options: None,
        })
    );
    assert_eq!(
        Command::try_from(words("zz")),
        Err(CommandError::InvalidExpiration("zz".to_string()))
    );
}

#[test]
fn requests_that_are_no_command() {
    assert_eq!(Command::try_from(Vec::<String>::new()), Err(CommandError::Empty));
    assert_eq!(
        Command::try_from(vec!["flush".to_string()]),
        Err(CommandError::UnknownCommand("flush".to_string()))
    );
    assert_eq!(
        Command::try_from(vec!["ping".to_string(), "x".to_string()]),
        Err(CommandError::WrongArity("ping".to_string()))
    );
    assert_eq!(
        Command::try_from(vec!["echo".to_string()]),
        Err(CommandError::WrongArity("echo".to_string()))
    );
    assert_eq!(
        Command::try_from(vec!["get".to_string()]),
        Err(CommandError::WrongArity("get".to_string()))
    );
    assert_eq!(
        Command::try_from(vec!["set".to_string(), "k".to_string()]),
        Err(CommandError::WrongArity("set".to_string()))
    );
}

#[test]
fn lone_verb() {
    assert_eq!(Command::try_from("PING"), Ok(Command::Ping));
    assert_eq!(
        Command::try_from("pong"),
        Err(CommandError::UnknownVerb("pong".to_string()))
    );
}

#[test]
fn expiration_keyword() {
    assert_eq!(SetExpiration::try_from("eX".to_string()), Ok(SetExpiration::Ex));
    assert_eq!(SetExpiration::try_from("PX".to_string()), Ok(SetExpiration::Px));
    assert_eq!(
        SetExpiration::try_from("".to_string()),
        Err(CommandError::InvalidExpiration("".to_string()))
    );
}

#[test]
fn texts_of_errors() {
    assert_eq!(CommandError::Empty.message(), "Cannot parse `Command`");
    assert_eq!(
        CommandError::UnknownCommand("flush".to_string()).message(),
        "Cannot parse `Command`"
    );
    assert_eq!(
        CommandError::WrongArity("get".to_string()).message(),
        "Cannot parse `Command`"
    );
    assert_eq!(CommandError::NotAnArray.message(), "Cannot parse `Command`");
    assert_eq!(CommandError::NotBulkString.message(), "Cannot parse `Command`");
    assert_eq!(CommandError::InvalidUtf8.message(), "Cannot parse `Command`");
    assert_eq!(
        CommandError::UnknownVerb("pong".to_string()).message(),
        "Cannot parse `Command` from &str"
    );
}

#[test]
fn text_of_an_invalid_expiration_holds_the_lowered_word() {
    let message = |word: &str| SetExpiration::try_from(word.to_string()).unwrap_err().message();
    assert_eq!(message("zz"), "Invalid SetExpiration value: `zz`");
    assert_eq!(message("KeepTTL"), "Invalid SetExpiration value: `keepttl`");
    assert_eq!(message(""), "Invalid SetExpiration value: ``");
    assert_eq!(message("\u{c9}X 1"), "Invalid SetExpiration value: `\u{e9}x 1`");
    assert_eq!(
        invalid_expiration_message("nx"),
        "Invalid SetExpiration value: `nx`"
    );
    assert_eq!(
        invalid_expiration_message("As Given"),
        "Invalid SetExpiration value: `As Given`"
    );
}

#[test]
fn diagnostics_for_clients_are_fixed() {
    assert_eq!(CommandError::Empty.reply(), "ERR empty request");
    assert_eq!(
        CommandError::UnknownCommand("a".to_string()).reply(),
        CommandError::UnknownCommand("b".to_string()).reply()
    );
    assert_eq!(
        CommandError::UnknownCommand("a".to_string()).reply(),
        "ERR unknown command"
    );
    assert_eq!(
        CommandError::UnknownVerb("a".to_string()).reply(),
        "ERR unknown command"
    );
    assert_eq!(
        CommandError::WrongArity("get".to_string()).reply(),
        "ERR wrong number of arguments"
    );
    assert_eq!(
        CommandError::InvalidExpiration("z\r\nz".to_string()).reply(),
        "ERR expiration is neither EX nor PX"
    );
    assert_eq!(CommandError::NotAnArray.reply(), "ERR request is not an array");
    assert_eq!(
        CommandError::NotBulkString.reply(),
        "ERR argument is not a bulk string"
    );
    assert_eq!(CommandError::InvalidUtf8.reply(), "ERR argument is not UTF-8");
}
