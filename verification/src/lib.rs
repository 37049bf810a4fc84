//! The logic of a high-level emulator for iPhone OS apps: the guest processor
//! and memory, the Foundation value classes, and the graphics, audio, stream,
//! keychain and archive frameworks that sit on top of them.
pub mod av_audio_player;
pub mod ca_eagl_layer;
pub mod cdn;
pub mod cf_stream;
pub mod cg_bitmap_context;
pub mod cg_context;
pub mod cg_path;
pub mod civil;
pub mod code_units;
pub mod cpu;
pub mod cpu_diff;
pub mod doubles;
pub mod eagl;
pub mod gamma;
pub mod gl_present;
pub mod http;
pub mod mem;
pub mod ns_array;
pub mod ns_calendar;
pub mod ns_data;
pub mod ns_date_formatter;
pub mod ns_exception;
pub mod ns_file_manager;
pub mod ns_keyed_unarchiver;
pub mod ns_set;
pub mod ns_string;
pub mod ns_time_zone;
pub mod ns_url_connection;
pub mod objc;
pub mod plist_value;
pub mod security;
pub mod singles;
pub mod string_encoding;
pub mod string_values;
pub mod text;
pub mod time;
pub mod xml_dates;
