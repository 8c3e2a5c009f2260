pub mod window;
pub mod alphabet_dialog;
