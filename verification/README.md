# sysmon

A system monitor applet for the COSMIC panel: CPU per core, RAM, network, disk,
temperatures and GPU, each section with its detail popup.

- `src/` is the verified library (Verus): the parsers of the `/proc` and `/sys` files
  that the collectors read, the orders of their listings, the top-process lists, the
  configuration of the sections, and the state machine of the panel and its popup
  (which section it shows, when it opens or closes, what each message changes).
- `app/` is the applet around it: the COSMIC views, the drawing of the meters as SVG,
  the floating-point rates and percentages, the reading of files, `statvfs` and the
  launching of the system monitor.
- `tests/` runs the library on concrete values.
