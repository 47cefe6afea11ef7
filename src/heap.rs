pub mod sfib;
