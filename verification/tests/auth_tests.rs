use rusqlite::{Connection, ErrorCode};
use what_next_back::auth::{change_password, check_credential, hash_new_password};
use what_next_back::{is_constraint_violation, DbError};

fn users_db() -> Connection {
    let conn = Connection::open_in_memory().unwrap();
    conn.execute("CREATE TABLE users(id INTEGER PRIMARY KEY, username TEXT NOT NULL UNIQUE, phc TEXT NOT NULL)", [])
        .unwrap();
    conn
}

fn db_error(e: rusqlite::Error) -> DbError {
    match e {
        rusqlite::Error::QueryReturnedNoRows => DbError::NoRows,
        rusqlite::Error::SqliteFailure(f, _) if f.code == ErrorCode::ConstraintViolation => DbError::ConstraintViolation,
        _ => DbError::Other,
    }
}

fn lookup(conn: &Connection, username: &str) -> Result<(i32, String), DbError> {
    conn.query_row("SELECT id, phc FROM users WHERE username = ?1", [username], |row| Ok((row.get(0)?, row.get(1)?)))
        .map_err(db_error)
}

fn add_user(conn: &Connection, username: &str, pwd: &str) -> Result<i32, DbError> {
    let phc = hash_new_password(pwd)?;
    conn.query_row("INSERT INTO users(username, phc) VALUES(?1, ?2) RETURNING id", [username, phc.as_str()], |row| row.get(0))
        .map_err(db_error)
}

fn login(conn: &Connection, username: &str, pwd: &str) -> Result<i32, DbError> {
    let (user_id, phc) = lookup(conn, username)?;
    check_credential(user_id, &phc, pwd)
}

fn new_password(conn: &Connection, username: &str, old_pwd: &str, new_pwd: &str) -> Result<i32, DbError> {
    let (user_id, phc) = lookup(conn, username)?;
    let new_phc = change_password(user_id, &phc, old_pwd, new_pwd)?;
    conn.execute("UPDATE users SET phc = ?1 WHERE id = ?2", (new_phc.as_str(), user_id)).map_err(db_error)?;
    Ok(user_id)
}

#[test]
fn test_auth() {
    let conn = users_db();
    let user_id = add_user(&conn, "test", "aBadPassword").unwrap();
    // duplicated username should fail with a constraint violation
    assert!(is_constraint_violation(&add_user(&conn, "test", "whatever")));
    // bad username/password combo should err with no rows
    assert_eq!(login(&conn, "test", "theWrongPassword"), Err(DbError::NoRows));
    assert_eq!(login(&conn, "wrong_username", "aBadPassword"), Err(DbError::NoRows));
    // correct username/password combo should succeed and return the user id
    assert_eq!(login(&conn, "test", "aBadPassword"), Ok(user_id));
    assert_eq!(new_password(&conn, "test", "aBadPassword", "whatever"), Ok(user_id));
    assert_eq!(login(&conn, "test", "whatever"), Ok(user_id));
}
