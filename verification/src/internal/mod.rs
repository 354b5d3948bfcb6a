pub mod db;
pub mod db_laws;
pub mod log;
pub mod server;
pub mod server_laws;
pub mod table;
pub mod txn;
