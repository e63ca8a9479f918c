use factstore::cli::{parse_command, parse_joins, CliCommand, CliError, Join};

#[test]
fn command_load() {
    assert_eq!(
        Ok(CliCommand::Load("data/db.bin".to_owned())),
        parse_command("l data/db.bin")
    );
}

#[test]
fn command_query() {
    assert_eq!(
        Ok(CliCommand::Query("e=1 | e=2".to_owned())),
        parse_command("q e=1 | e=2")
    );
}

#[test]
fn command_write_empty_clear_exit() {
    assert_eq!(
        Ok(CliCommand::Write("out.bin".to_owned())),
        parse_command("w out.bin")
    );
    assert_eq!(Ok(CliCommand::Empty), parse_command("empty"));
    assert_eq!(Ok(CliCommand::Clear), parse_command("clear"));
    assert_eq!(Ok(CliCommand::Exit), parse_command("exit"));
    assert_eq!(Ok(CliCommand::Nothing), parse_command(""));
}

#[test]
fn command_load_csv_with_join() {
    let got = parse_command("c data/albums.csv album Year join(Artist, \"a=artist/name\")");
    assert_eq!(
        Ok(CliCommand::LoadCsv(
            "data/albums.csv".to_owned(),
            "album".to_owned(),
            "Year".to_owned(),
            vec![Join("Artist".to_owned(), "a=artist/name".to_owned())],
        )),
        got
    );
}

#[test]
fn command_load_csv_without_joins() {
    assert_eq!(
        Ok(CliCommand::LoadCsv(
            "data/artists.csv".to_owned(),
            "artist".to_owned(),
            "Year".to_owned(),
            vec![],
        )),
        parse_command("c data/artists.csv artist Year")
    );
}

#[test]
fn command_errors() {
    assert_eq!(
        Err(CliError::UnknownCommand("frob".to_owned())),
        parse_command("frob x")
    );
    assert_eq!(
        Err(CliError::InvalidArgs("a b".to_owned())),
        parse_command("c a b")
    );
    assert!(matches!(
        parse_command("c a b c join(bad)"),
        Err(CliError::InvalidJoinClause(_))
    ));
}

#[test]
fn command_keeps_argument_spacing() {
    // Everything after the command token is the argument, spaces and all.
    assert_eq!(
        Ok(CliCommand::Query(" a:foo  bar".to_owned())),
        parse_command("q  a:foo  bar")
    );
}

#[test]
fn join_clauses_parse() {
    let got = parse_joins("join(Artist, \"a=artist/name\") join(Album, \"a=album/name\")");
    assert_eq!(
        Ok(vec![
            Join("Artist".to_owned(), "a=artist/name".to_owned()),
            Join("Album".to_owned(), "a=album/name".to_owned()),
        ]),
        got
    );
    assert_eq!(Ok(vec![]), parse_joins(""));
    assert_eq!(Ok(vec![]), parse_joins("   "));
}

#[test]
fn join_clause_rejects_malformed() {
    assert!(parse_joins("join(Artist a=artist/name)").is_err());
    assert!(parse_joins("join(Artist, a=artist/name)").is_err());
    assert!(parse_joins("join(, \"q\")").is_err());
    assert!(parse_joins("garbage").is_err());
}
