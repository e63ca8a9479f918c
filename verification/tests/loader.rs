use factstore::cli::Join;
use factstore::csv_parser::{generate_refs, robotize, CsvParser};
use factstore::data::{Datum, Db, Error, Ref};

fn strings(cells: &[&str]) -> Vec<String> {
    cells.iter().map(|c| c.to_string()).collect()
}

#[test]
fn robotize_lowers_and_underscores() {
    assert_eq!("a_b", robotize("A B"));
    assert_eq!("yearofbirth", robotize("YearOfBirth"));
    assert_eq!("plain", robotize("plain"));
}

#[test]
fn ingest_emits_one_datum_per_value_column() {
    let db = Db::new();
    let parser = CsvParser::new("artists.csv", "artist", "Year", &[]);
    let headers = strings(&["Name", "Year"]);
    let rows = vec![strings(&["X", "1999"]), strings(&["Y", "2001"])];
    let (datums, refs, count) = parser.parse(&headers, rows, &db).unwrap();
    assert_eq!(2, count);
    assert!(refs.is_empty());
    assert_eq!(
        vec![
            Datum::new(0, "artist/name", "X", 1999),
            Datum::new(1, "artist/name", "Y", 2001),
        ],
        datums
    );
}

#[test]
fn ingest_advances_offset_by_row_count() {
    let mut db = Db::new();
    let parser = CsvParser::new("artists.csv", "artist", "Year", &[]);
    let headers = strings(&["Name", "Year"]);
    let rows = vec![strings(&["X", "1999"]), strings(&["Y", "2001"])];
    let (datums, refs, count) = parser.parse(&headers, rows, &db).unwrap();
    db.insert(datums, refs, count);
    assert_eq!(2, db.offset);

    let rows2 = vec![strings(&["Z", "2003"])];
    let (datums2, refs2, count2) = parser.parse(&headers, rows2, &db).unwrap();
    assert_eq!(vec![Datum::new(2, "artist/name", "Z", 2003)], datums2);
    db.insert(datums2, refs2, count2);
    assert_eq!(3, db.offset);
}

#[test]
fn ingest_reports_missing_time_header() {
    let db = Db::new();
    let parser = CsvParser::new("artists.csv", "artist", "Year", &[]);
    let headers = strings(&["Name", "Born"]);
    let rows = vec![strings(&["X", "1999"])];
    let err = parser.parse(&headers, rows, &db).unwrap_err();
    assert_eq!(Error::MissingTimeHeader("Year".to_owned()), err);
}

#[test]
fn ingest_reports_bad_time_cell() {
    let db = Db::new();
    let parser = CsvParser::new("artists.csv", "artist", "Year", &[]);
    let headers = strings(&["Name", "Year"]);
    let rows = vec![strings(&["X", "1999"]), strings(&["Y", "young"])];
    let err = parser.parse(&headers, rows, &db).unwrap_err();
    assert_eq!(Error::TimeColumnTypeError("young".to_owned()), err);
}

#[test]
fn join_discovers_one_ref() {
    // Load artists, then albums declaring a join on the Artist column:
    // the album whose artist value matches an artist's name produces
    // exactly one reference from the album entity to the artist entity.
    let mut db = Db::new();
    let artists = CsvParser::new("artists.csv", "artist", "Year", &[]);
    let headers1 = strings(&["Name", "Year"]);
    let rows1 = vec![strings(&["X", "1999"])];
    let (d1, r1, n1) = artists.parse(&headers1, rows1, &db).unwrap();
    db.insert(d1, r1, n1);

    let joins = vec![Join("Artist".to_owned(), "a=artist/name".to_owned())];
    let albums = CsvParser::new("albums.csv", "album", "Year", &joins);
    let headers2 = strings(&["Name", "Artist", "Year"]);
    let rows2 = vec![strings(&["A1", "X", "2000"]), strings(&["A2", "Z", "2001"])];
    let (d2, r2, n2) = albums.parse(&headers2, rows2, &db).unwrap();
    assert_eq!(vec![Ref::new(1, "album/artist".to_owned(), 0, 2000)], r2);
    db.insert(d2, r2, n2);
    assert_eq!(3, db.offset);
}

#[test]
fn join_with_no_match_emits_nothing() {
    let mut db = Db::new();
    let artists = CsvParser::new("artists.csv", "artist", "Year", &[]);
    let (d1, r1, n1) = artists
        .parse(&strings(&["Name", "Year"]), vec![strings(&["X", "1999"])], &db)
        .unwrap();
    db.insert(d1, r1, n1);

    let joins = vec![Join("Artist".to_owned(), "a=artist/name".to_owned())];
    let albums = CsvParser::new("albums.csv", "album", "Year", &joins);
    let (_d2, r2, _n2) = albums
        .parse(
            &strings(&["Name", "Artist", "Year"]),
            vec![strings(&["A1", "NoSuch", "2000"])],
            &db,
        )
        .unwrap();
    assert!(r2.is_empty());
}

#[test]
fn generate_refs_links_all_matches() {

    let new = Datum::new(5, "album/artist", "X", 7);
    let o1 = Datum::new(1, "artist/name", "X", 1);
    let o2 = Datum::new(2, "artist/name", "Y", 1);
    let o3 = Datum::new(3, "artist/name", "X", 2);
    let olds = vec![&o1, &o2, &o3];
    let refs = generate_refs(&new, &olds);
    assert_eq!(
        vec![
            Ref::new(5, "album/artist".to_owned(), 1, 7),
            Ref::new(5, "album/artist".to_owned(), 3, 7),
        ],
        refs
    );
}
