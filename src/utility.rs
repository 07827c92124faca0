pub mod read_config;
