# switch_fw

Byte-level helpers of a network switch's firmware, verified with Verus:
decoding of status and GPIO register bits, hex and decimal rendering for the
web pages, parsing of decimal and hex numbers and of URL-encoded words, the
search for a marker in flash memory, and the splitting of configuration
lines into words.

- `src/bits.rs`: `port`, `isletter`, `parse_i16`, `gpio_pin_test`
- `src/html.rs`: `itohex`, `byte_to_html`, `sfr_data_to_html`, `itoa_html`
- `src/parse.rs`: `parse_short`, `atoi_hex`
- `src/url.rs`: `is_url_word_x`
- `src/flash.rs`: `Flash`, `flash_find_mark`
- `src/cmd.rs`: `CmdArgs`, `ERR`, `cmd_tokenize`, `cmd_compare`, `execute_config`
- `src/laws.rs`: properties that relate these functions, proved
- `app/lib.rs`: `cmd_compare` for callers that hold a `CStr`

Functions that would index out of bounds or overflow on some input state
those inputs in `requires`; the spec functions next to each function say
exactly what it returns.
