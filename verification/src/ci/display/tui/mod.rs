pub mod stateful_text;
