# s3prog

Firmware logic for an ESP32-C6 board that programs S3 microcontrollers through their serial
programming interface (RESET, VPP, SCLK and a bidirectional SDAT line), controlled from a web
page.

- `src/` is the library, verified with Verus:
  - `hex`: hexadecimal digits and the two- and four-digit fields of a record;
  - `record`: the in-memory file of up to 100 records of up to 255 data bytes;
  - `upload`: the byte-at-a-time reader of an uploaded Intel HEX file, and upload admission;
  - `text`: Intel HEX text and the proof that reading a well-formed file fills the records;
  - `program`: walking the records (segment base, blocks, end of file) and comparing
    read-back data;
  - `wire`: the line operations of each primitive (start/stop condition, byte send and
    receive, read, write, erase, smart option) and the decoding of sampled bits;
  - `signal`: what the target clocks in from those operations;
  - `commands`: the line sequences of the erase, program, verify and self-test commands.
- `tests/` runs the library on concrete files and commands.
- `app/main.rs` is the firmware around it: GPIO, delays, Wi-Fi, the web server and the
  command task. It performs the queued line operations and hands back the sampled levels.
  It needs `SSID` and `PASSWORD` in the build environment and targets the ESP32-C6.
