pub mod aarch32;
