//! The sample documents of the sqlx macros, rewritten with a formatter that gives a fixed text.

/// Rewrites `content` with the default macros, the formatter giving `sql` for every literal.
fn rewrite_with(content: &str, sql: &str) -> String {
    let sql = sql.to_string();
    sqlx_fmt::format(content, 4, &None, move |_text: &str, _raw: bool| Ok(sql.clone())).unwrap()
}

#[test]
fn migrate() {
    let content = r###"
{
    sqlx::migrate!(
        r#"alter table test add column log text"#,
    )
    .fetch_one(pool)
    .await
    .map_err(|e| warn!("fails query, error: {e:?}"))
}
    "###;

    let formatted = rewrite_with(content, "alter table test add column log text\n\n");

    let expected = r###"
{
    sqlx::migrate!(
        r#"
            alter table test add column log text
        "#,
    )
    .fetch_one(pool)
    .await
    .map_err(|e| warn!("fails query, error: {e:?}"))
}
    "###;

    assert_eq!(formatted, expected);
}

#[test]
fn migrate_no_indent() {
    let content = r###"
sqlx::migrate!(
    r#"alter table test add column log text"#,
)
.fetch_one(pool)
.await
.map_err(|e| warn!("fails query, error: {e:?}"))
    "###;

    let formatted = rewrite_with(content, "alter table test add column log text\n\n");

    let expected = r###"
sqlx::migrate!(
    r#"
        alter table test add column log text
    "#,
)
.fetch_one(pool)
.await
.map_err(|e| warn!("fails query, error: {e:?}"))
    "###;

    assert_eq!(formatted, expected);
}

#[test]
fn query() {
    let content = r###"
{
    sqlx::query!(
        r#"
            select   *
                from
                    test where id = $1
        "#,
        id
    )
    .fetch_one(pool)
    .await
    .map_err(|e| warn!("fails query, error: {e:?}"))
}
    "###;

    let formatted = rewrite_with(content, "select *\nfrom\n    test\nwhere id = $1\n");

    let expected = r###"
{
    sqlx::query!(
        r#"
            select *
            from
                test
            where id = $1
        "#,
        id
    )
    .fetch_one(pool)
    .await
    .map_err(|e| warn!("fails query, error: {e:?}"))
}
    "###;

    assert_eq!(formatted, expected);
}

#[test]
fn query_as_unchecked() {
    let content = r###"
{
    sqlx::query_as_unchecked!(
        Test,
        r#"
            select   *
                from
                    test where id = $1
        "#,
        id
    )
    .fetch_one(pool)
    .await
    .map_err(|e| warn!("fails query, error: {e:?}"))
}
    "###;

    let formatted = rewrite_with(content, "select *\nfrom\n    test\nwhere id = $1\n");

    let expected = r###"
{
    sqlx::query_as_unchecked!(
        Test,
        r#"
            select *
            from
                test
            where id = $1
        "#,
        id
    )
    .fetch_one(pool)
    .await
    .map_err(|e| warn!("fails query, error: {e:?}"))
}
    "###;

    assert_eq!(formatted, expected);
}

#[test]
fn query_scalar() {
    let content = r###"
{
    sqlx::query_scalar!(
        Test,
        r#"
            select   *
                from
                    test where id = $1
        "#,
        id
    )
    .fetch_one(pool)
    .await
    .map_err(|e| warn!("fails query, error: {e:?}"))
}
    "###;

    let formatted = rewrite_with(content, "select *\nfrom\n    test\nwhere id = $1\n");

    let expected = r###"
{
    sqlx::query_scalar!(
        Test,
        r#"
            select *
            from
                test
            where id = $1
        "#,
        id
    )
    .fetch_one(pool)
    .await
    .map_err(|e| warn!("fails query, error: {e:?}"))
}
    "###;

    assert_eq!(formatted, expected);
}

#[test]
fn query_scalar_unchecked() {
    let content = r###"
{
    sqlx::query_scalar_unchecked!(
        Test,
        r#"
            select   *
                from
                    test where id = $1
        "#,
        id
    )
    .fetch_one(pool)
    .await
    .map_err(|e| warn!("fails query, error: {e:?}"))
}
    "###;

    let formatted = rewrite_with(content, "select *\nfrom\n    test\nwhere id = $1\n");

    let expected = r###"
{
    sqlx::query_scalar_unchecked!(
        Test,
        r#"
            select *
            from
                test
            where id = $1
        "#,
        id
    )
    .fetch_one(pool)
    .await
    .map_err(|e| warn!("fails query, error: {e:?}"))
}
    "###;

    assert_eq!(formatted, expected);
}

#[test]
fn query_unchecked() {
    let content = r###"
{
    sqlx::query_unchecked!(
        r#"
            select   *
                from
                    test where id = $1
        "#,
        id
    )
    .fetch_one(pool)
    .await
    .map_err(|e| warn!("fails query, error: {e:?}"))
}
    "###;

    let formatted = rewrite_with(content, "select *\nfrom\n    test\nwhere id = $1\n");

    let expected = r###"
{
    sqlx::query_unchecked!(
        r#"
            select *
            from
                test
            where id = $1
        "#,
        id
    )
    .fetch_one(pool)
    .await
    .map_err(|e| warn!("fails query, error: {e:?}"))
}
    "###;

    assert_eq!(formatted, expected);
}

#[test]
fn query_as() {
    let content = r###"
    sqlx::query!(
        r#"
            select   *
                from
                    test where id = $1
        "#,
        id
    )
    "###;

    let expected = r###"
    sqlx::query!(
        r#"
            select *
            from
                test
            where id = $1
        "#,
        id
    )
    "###;

    let formatted = rewrite_with(content, "select *\nfrom\n    test\nwhere id = $1\n");
    assert_eq!(formatted, expected);
}

#[test]
fn raw_as() {
    let content = r###"
    sqlx::query_as!(
        Test,
        r#"
            select   *
                from
                    test where id = $1
        "#,
        id
    )
    "###;

    let expected = r###"
    sqlx::query_as!(
        Test,
        r#"
            select *
            from
                test
            where id = $1
        "#,
        id
    )
    "###;

    let formatted = rewrite_with(content, "select *\nfrom\n    test\nwhere id = $1\n");
    assert_eq!(formatted, expected);
}

#[test]
fn raw_indented_literal() {
    let content = r###"
    sqlx::query!(
            r#"
                        select   *
                from
                    test where id = $1
            "#,
        id
    )
    "###;

    let expected = r###"
    sqlx::query!(
            r#"
                select *
                from
                    test
                where id = $1
            "#,
        id
    )
    "###;

    let formatted = rewrite_with(content, "select *\nfrom\n    test\nwhere id = $1\n");
    assert_eq!(formatted, expected);
}

#[test]
fn nested() {
    let content = r###"
{
    sqlx::query!(
        r#"
            select   *
                from
                    test where id = $1
        "#,
        id
    )
}
    "###;

    let expected = r###"
{
    sqlx::query!(
        r#"
            select *
            from
                test
            where id = $1
        "#,
        id
    )
}
    "###;

    let formatted = rewrite_with(content, "select *\nfrom\n    test\nwhere id = $1\n");
    assert_eq!(formatted, expected);
}

#[test]
fn raw_single() {
    let content = r###"
    sqlx::migrate!(
        r#"alter table    test add column log text"#,
    )
    "###;

    let formatted = rewrite_with(content, "alter table test add column log text\n");

    let expected = r###"
    sqlx::migrate!(
        r#"alter table test add column log text"#,
    )
    "###;

    assert_eq!(formatted, expected);
}

#[test]
fn raw_single_to_many() {
    let content = r###"
    sqlx::migrate!(
        r#"select *     from test where id = '1' and on = true and foo = 'bar' and foo = 'bar' and foo = 'bar' and foo = 'bar' and foo = 'bar'"#,
    )
    "###;

    let formatted = rewrite_with(content, "select *\nfrom test\nwhere\n    id = '1'\nand on = true and foo = 'bar' and foo = 'bar' and foo = 'bar' and foo = 'bar' and foo = 'bar'\n");

    let expected = r###"
    sqlx::migrate!(
        r#"
            select *
            from test
            where
                id = '1'
            and on = true and foo = 'bar' and foo = 'bar' and foo = 'bar' and foo = 'bar' and foo = 'bar'
        "#,
    )
    "###;

    assert_eq!(formatted, expected);
}

#[test]
fn single() {
    let content = r###"
        sqlx::query!("select *   from test where id = '1';")
    "###;

    let expected = r###"
        sqlx::query!("select * from test where id = '1';")
    "###;

    let formatted = rewrite_with(content, "select * from test where id = '1';\n");
    assert_eq!(formatted, expected);
}

#[test]
fn single_to_many() {
    let content = r###"
        sqlx::query!("select *     from test where id = '1' and on = true and foo = 'bar' and foo = 'bar' and foo = 'bar' and foo = 'bar' and foo = 'bar';")
    "###;

    let expected = r###"
        sqlx::query!("select * from test where id = '1' and on = true and foo = 'bar' and foo = 'bar' and foo = 'bar' and foo = 'bar' and foo = 'bar';")
    "###;

    let formatted = rewrite_with(content, "select *\nfrom test\nwhere\n    id = '1'\n    and on = true and foo = 'bar' and foo = 'bar' and foo = 'bar' and foo = 'bar' and foo = 'bar';\n");
    assert_eq!(formatted, expected);
}
