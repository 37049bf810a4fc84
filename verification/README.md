# touchhle

The logic of a high-level emulator for iPhone OS apps, verified with Verus.

`src/` holds the library. Its functions state in their contracts what they return or
change, and Verus proves that they do. Believed without a proof are the contracts of the
few functions that call the standard library, `plist` and `encoding_rs`: in `text`,
`code_units`, `string_encoding`, `plist_value` and `ns_keyed_unarchiver`. Each of them
says what is claimed of the function that it calls.

- `mem`, `objc`: guest memory, and the table of guest objects with their references.
- `cpu`, `cpu_diff`: fetching and stepping of the processor, and the comparison of two
  backends on single instructions.
- `code_units`, `string_encoding`, `string_values`, `ns_string`: strings.
- `civil`, `time`, `ns_time_zone`, `ns_calendar`, `ns_date_formatter`: dates.
- `ns_array`, `ns_set`, `ns_data`, `ns_exception`, `ns_file_manager`,
  `ns_keyed_unarchiver`, `ns_url_connection`: other Foundation classes.
- `plist_value`, `xml_dates`, `security`: property lists, and the keychain that is kept in one.
- `http`, `cdn`, `cf_stream`: responses, resources and streams.
- `cg_bitmap_context`, `cg_context`, `cg_path`, `gamma`: drawing.
- `eagl`, `gl_present`, `ca_eagl_layer`, `av_audio_player`: frames and sound.
- `doubles`, `singles`, `text`: floating-point numbers by their bits, and texts.

Floating-point arithmetic, files, sockets and the graphics library are in `app/`, which
hands the library plain values. Numbers with a fraction pass through the library as
their bits.
