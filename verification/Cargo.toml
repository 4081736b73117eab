[package]
name = "sql_ast_benchmark"
version = "0.1.0"
edition = "2021"
publish = false

[dependencies]
sqlparser = "=0.63.0"
sql-parse = "=0.28.0"
pg_query = "=5.1.1"
pg_parse = "=0.14.0"
plotters = "=0.3.7"
