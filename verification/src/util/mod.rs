pub mod types;
pub mod fixed_point;
pub mod exchange_configs;
pub mod mp_command_codec;
pub mod format_exact_width;
