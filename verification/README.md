# rover

Server for an RTK GNSS rover: it reads NMEA sentences from a CH340 USB-serial receiver,
streams RTCM corrections to it from an NTRIP caster, serves the rover's live status and the
tracks and parcel outlines it records, and draws a logo on a small display.

## Layout

- `src/` — the verified library (Verus):
  - `stream` — framing the receiver's byte stream into trimmed NMEA sentences and the JSON
    batches broadcast to listeners;
  - `status` — the live status built from the receiver's readings, and the updates sent for
    each reading;
  - `gst` — the error fields of a GST sentence;
  - `ntrip` — the caster request, its answer, and the position reports sent back;
  - `track` — saved tracks, bookmarks and the draft, and the polygon outlines drawn from them;
  - `lpm` — the coordinate tables of land-parcel reports and of PDF table chunks;
  - `usb` — recognising and setting up the serial bridge, and listing serial devices;
  - `framebuffer` — drawing a 16-bit BMP into the display's framebuffer;
  - `appstate` — the web API's errors and request checks;
  - `beacon` — the address announced over Bluetooth;
  - `text`, `json` — character helpers and the JSON text of sentence batches.
- `app/` — the program around it: the web server and its handlers, USB and TCP I/O, the
  `nmea` receiver state and all floating-point geometry.
- `tests/` — tests of the library, several against the `regex` patterns the grammars follow.
