// The production store is a sqlite database; recording an attempt must be
// atomic, so a failure after a partial write leaves no row visible to a
// later existence check. These tests exercise that transaction boundary on
// a real in-memory sqlite database, with the schema the runner uses.

const CREATE_ATTEMPTS: &str = "create table attempts (run_id integer, input_file text, \
     timeout_seconds integer, success boolean, time_used_seconds integer, stdout blob, stderr blob);";

const INSERT_ATTEMPT: &str = "insert into attempts (run_id, input_file, timeout_seconds, success, \
     time_used_seconds, stdout, stderr) values (1, 'f1', 1, 1, 0, x'', x'');";

fn runtime() -> tokio::runtime::Runtime {
    tokio::runtime::Builder::new_current_thread()
        .enable_all()
        .build()
        .unwrap()
}

async fn memory_pool() -> sqlx::Pool<sqlx::Sqlite> {
    let pool = sqlx::sqlite::SqlitePoolOptions::new()
        .max_connections(1)
        .connect("sqlite::memory:")
        .await
        .unwrap();
    sqlx::query(CREATE_ATTEMPTS).execute(&pool).await.unwrap();
    pool
}

#[test]
fn abandoned_transaction_leaves_zero_rows() {
    runtime().block_on(async {
        let pool = memory_pool().await;
        let mut tx = pool.begin().await.unwrap();
        sqlx::query(INSERT_ATTEMPT).execute(tx.as_mut()).await.unwrap();
        drop(tx);
        let rows: i64 = sqlx::query_scalar("select count(*) from attempts;")
            .fetch_one(&pool)
            .await
            .unwrap();
        assert_eq!(rows, 0);
        let exists: i64 = sqlx::query_scalar(
            "select exists (select 1 from attempts where run_id = 1 and input_file = 'f1' and success = 1);",
        )
        .fetch_one(&pool)
        .await
        .unwrap();
        assert_eq!(exists, 0);
    });
}

#[test]
fn committed_transaction_leaves_one_whole_row() {
    runtime().block_on(async {
        let pool = memory_pool().await;
        let mut tx = pool.begin().await.unwrap();
        sqlx::query(INSERT_ATTEMPT).execute(tx.as_mut()).await.unwrap();
        tx.commit().await.unwrap();
        let rows: i64 = sqlx::query_scalar("select count(*) from attempts;")
            .fetch_one(&pool)
            .await
            .unwrap();
        assert_eq!(rows, 1);
        let exists: i64 = sqlx::query_scalar(
            "select exists (select 1 from attempts where run_id = 1 and input_file = 'f1' and success = 1);",
        )
        .fetch_one(&pool)
        .await
        .unwrap();
        assert_eq!(exists, 1);
    });
}
