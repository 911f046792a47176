pub mod block_quotes;
